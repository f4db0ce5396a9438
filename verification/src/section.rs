//! Section files: stages, markdown of a section, escaping, `.fail` records, numbering.
use vstd::prelude::*;

use std::path::PathBuf;

use crate::text::{
    lemma_decimal_u32, lemma_lines_append, lemma_lines_cons, lemma_trim_drop_ws_last,
    lemma_trim_idempotent, lemma_trim_shape, no_newline, is_ws, trim_start,
    decimal, digit_prefix_len, first_index, is_digit, is_digit_exec, lemma_digit_prefix_len_at,
    lemma_first_index_at, lemma_first_index_bounds, parse_u32, parse_u32_spec, push_decimal,
    slice_chars, split_once, strip_cr, trailing_digits, lemma_trailing_digits_at, ends_with,
    ends_with_chars,
    append_chars, chars_of, is_ascii_alnum, lines, lines_of, matches_at, replace_all,
    replace_chars, starts_with, string_of, trim, trim_chars, views,
};

verus! {

/// A processing stage of a book's sections.
#[derive(Clone, Copy, Debug, PartialEq, Eq, Structural, PartialOrd, Ord)]
pub enum Stage {
    Raw,
    Translated,
    Annotated,
}

impl Stage {
    pub open spec fn dir_name_spec(self) -> Seq<char> {
        match self {
            Stage::Raw => "sections"@,
            Stage::Translated => "sections_translated"@,
            Stage::Annotated => "sections_annotated"@,
        }
    }

    /// The directory that holds the stage's sections.
    pub fn dir_name(self) -> (s: &'static str)
        ensures
            s@ == self.dir_name_spec(),
    {
        match self {
            Stage::Raw => "sections",
            Stage::Translated => "sections_translated",
            Stage::Annotated => "sections_annotated",
        }
    }

    /// The directory that holds the stage's `.fail` records; the raw stage has none.
    pub fn fail_dir_name(self) -> (s: Option<&'static str>)
        ensures
            match self {
                Stage::Raw => s is None,
                Stage::Translated => s matches Some(d) && d@ == "failed_translate"@,
                Stage::Annotated => s matches Some(d) && d@ == "failed_annotate"@,
            },
    {
        match self {
            Stage::Raw => None,
            Stage::Translated => Some("failed_translate"),
            Stage::Annotated => Some("failed_annotate"),
        }
    }

    /// The highest processed stage that has any sections, with those sections; the raw
    /// stage when no processed stage has any.
    pub fn resolve_latest<T>(annotated: Vec<T>, translated: Vec<T>, raw: Vec<T>) -> (r: (
        Stage,
        Vec<T>,
    ))
        ensures
            annotated.len() > 0 ==> r.0 == Stage::Annotated && r.1@ == annotated@,
            annotated.len() == 0 && translated.len() > 0 ==> r.0 == Stage::Translated && r.1@
                == translated@,
            annotated.len() == 0 && translated.len() == 0 ==> r.0 == Stage::Raw && r.1@ == raw@,
    {
        if annotated.len() > 0 {
            (Stage::Annotated, annotated)
        } else if translated.len() > 0 {
            (Stage::Translated, translated)
        } else {
            (Stage::Raw, raw)
        }
    }
}

// ---------------------------------------------------------------------------
// Markdown of a section
// ---------------------------------------------------------------------------

/// Numbered sections, their text taken by its view.
pub open spec fn section_views(v: Seq<(u32, String)>) -> Seq<(u32, Seq<char>)> {
    v.map_values(|e: (u32, String)| (e.0, e.1@))
}

pub open spec fn str_views(s: Seq<&str>) -> Seq<Seq<char>> {
    s.map_values(|x: &str| x@)
}

/// `# title` and a newline, when there is a title.
pub open spec fn title_block(title: Option<Seq<char>>) -> Seq<char> {
    match title {
        None => seq![],
        Some(t) => seq!['#', ' '] + t + seq!['\n'],
    }
}

/// A paragraph, trimmed, between newlines; nothing for a blank paragraph.
pub open spec fn paragraph_block(p: Seq<char>) -> Seq<char> {
    let t = trim(p);
    if t.len() == 0 {
        seq![]
    } else {
        seq!['\n'] + t + seq!['\n']
    }
}

pub open spec fn paragraph_blocks(ps: Seq<Seq<char>>) -> Seq<char>
    decreases ps.len(),
{
    if ps.len() == 0 {
        seq![]
    } else {
        paragraph_blocks(ps.drop_last()) + paragraph_block(ps.last())
    }
}

/// The markdown of a section: an optional `# title` line, then each nonblank paragraph.
pub open spec fn section_md(title: Option<Seq<char>>, ps: Seq<Seq<char>>) -> Seq<char> {
    title_block(title) + paragraph_blocks(ps)
}

/// The markdown of a section, from character data.
pub fn section_md_chars(title: Option<&Vec<char>>, ps: &Vec<Vec<char>>) -> (out: Vec<char>)
    ensures
        out@ == section_md(
            match title {
                None => None,
                Some(t) => Some(t@),
            },
            views(ps@),
        ),
{
    let mut out: Vec<char> = Vec::new();
    match title {
        None => {},
        Some(t) => {
            out.push('#');
            out.push(' ');
            append_chars(&mut out, t);
            out.push('\n');
        },
    }
    let ghost head = out@;
    assert(head =~= title_block(
        match title {
            None => None,
            Some(t) => Some(t@),
        },
    ));
    let mut i: usize = 0;
    while i < ps.len()
        invariant
            i <= ps.len(),
            out@ == head + paragraph_blocks(views(ps@).take(i as int)),
        decreases ps.len() - i,
    {
        let t = trim_chars(&ps[i]);
        let ghost before = out@;
        if t.len() > 0 {
            out.push('\n');
            append_chars(&mut out, &t);
            out.push('\n');
        }
        assert(views(ps@).take(i + 1).drop_last() =~= views(ps@).take(i as int));
        assert(views(ps@).take(i + 1).last() == ps@[i as int]@);
        assert(out@ =~= head + paragraph_blocks(views(ps@).take(i + 1)));
        i = i + 1;
    }
    assert(views(ps@).take(ps.len() as int) =~= views(ps@));
    out
}

/// The markdown of a section: `# title` when there is one, then each paragraph trimmed,
/// blank ones left out, each set off by newlines.
pub fn paragraphs_to_md(title: Option<&str>, paragraphs: &[&str]) -> (out: String)
    ensures
        out@ == section_md(
            match title {
                None => None,
                Some(t) => Some(t@),
            },
            str_views(paragraphs@),
        ),
{
    let mut ps: Vec<Vec<char>> = Vec::new();
    let mut i: usize = 0;
    while i < paragraphs.len()
        invariant
            i <= paragraphs.len(),
            views(ps@) == str_views(paragraphs@).take(i as int),
        decreases paragraphs.len() - i,
    {
        let p = chars_of(paragraphs[i]);
        proof {
            crate::text::lemma_views_push(ps@, p);
        }
        ps.push(p);
        assert(views(ps@) =~= str_views(paragraphs@).take(i + 1));
        i = i + 1;
    }
    assert(str_views(paragraphs@).take(paragraphs.len() as int) =~= str_views(paragraphs@));
    let out = match title {
        None => section_md_chars(None, &ps),
        Some(t) => {
            let tc = chars_of(t);
            section_md_chars(Some(&tc), &ps)
        },
    };
    string_of(&out)
}

/// The text of a `# ` heading line, trimmed, when it is not blank.
pub open spec fn heading_text(l: Seq<char>) -> Option<Seq<char>> {
    if starts_with(l, seq!['#', ' ']) && trim(l.skip(2)).len() > 0 {
        Some(trim(l.skip(2)))
    } else {
        None
    }
}

/// The first nonblank `# ` heading among the lines.
pub open spec fn first_heading(ls: Seq<Seq<char>>) -> Option<Seq<char>>
    decreases ls.len(),
{
    if ls.len() == 0 {
        None
    } else {
        match heading_text(ls[0]) {
            Some(t) => Some(t),
            None => first_heading(ls.drop_first()),
        }
    }
}

/// The heading text of line `l`, when it is a nonblank `# ` heading.
fn heading_of(l: &Vec<char>) -> (r: Option<Vec<char>>)
    ensures
        match heading_text(l@) {
            None => r is None,
            Some(t) => r matches Some(v) && v@ == t,
        },
{
    let hash = vec!['#', ' '];
    assert(l@.skip(0) =~= l@);
    if !matches_at(l, 0, &hash) {
        return None;
    }
    let rest = crate::text::slice_chars(l, 2, l.len());
    assert(rest@ =~= l@.skip(2));
    let t = trim_chars(&rest);
    if t.len() == 0 {
        None
    } else {
        Some(t)
    }
}

/// The title of a markdown section: the first `# ` line whose text is not blank, trimmed.
pub fn md_title(md: &str) -> (r: Option<String>)
    ensures
        match first_heading(lines(md@)) {
            None => r is None,
            Some(t) => r matches Some(s) && s@ == t,
        },
{
    let v = chars_of(md);
    let ls = lines_of(&v);
    let mut i: usize = 0;
    assert(views(ls@).skip(0) =~= views(ls@));
    while i < ls.len()
        invariant
            i <= ls.len(),
            first_heading(lines(md@)) == first_heading(views(ls@).skip(i as int)),
            views(ls@) == lines(md@),
        decreases ls.len() - i,
    {
        let ghost rest = views(ls@).skip(i as int);
        assert(rest[0] == ls@[i as int]@);
        assert(rest.drop_first() =~= views(ls@).skip(i + 1));
        match heading_of(&ls[i]) {
            Some(t) => {
                return Some(string_of(&t));
            },
            None => {},
        }
        i = i + 1;
    }
    None
}

/// A section rebuilt from new text: the title of the source section (its first nonblank
/// `# ` line), then each line of the text as a paragraph.
pub fn rebuild_section(source_md: &str, text: &str) -> (out: String)
    ensures
        out@ == section_md(first_heading(lines(source_md@)), lines(text@)),
{
    let title = md_title(source_md);
    let ls = lines_of(&chars_of(text));
    let md = match &title {
        None => section_md_chars(None, &ls),
        Some(t) => {
            let tv = chars_of(t.as_str());
            section_md_chars(Some(&tv), &ls)
        },
    };
    string_of(&md)
}

/// Whether a line carries text: not a `# ` heading and not blank.
pub open spec fn is_text_line(l: Seq<char>) -> bool {
    !starts_with(l, seq!['#', ' ']) && trim(l).len() > 0
}

/// The text lines, each followed by a newline.
pub open spec fn plaintext_of(ls: Seq<Seq<char>>) -> Seq<char>
    decreases ls.len(),
{
    if ls.len() == 0 {
        seq![]
    } else {
        let rest = plaintext_of(ls.drop_last());
        if is_text_line(ls.last()) {
            rest + ls.last() + seq!['\n']
        } else {
            rest
        }
    }
}

/// The plain text of a markdown section: every line that is neither a `# ` heading nor
/// blank, each followed by a newline.
pub fn md_to_plaintext(md: &str) -> (out: String)
    ensures
        out@ == plaintext_of(lines(md@)),
{
    let v = chars_of(md);
    let ls = lines_of(&v);
    let hash = vec!['#', ' '];
    let mut out: Vec<char> = Vec::new();
    let mut i: usize = 0;
    while i < ls.len()
        invariant
            i <= ls.len(),
            views(ls@) == lines(md@),
            hash@ == seq!['#', ' '],
            out@ == plaintext_of(views(ls@).take(i as int)),
        decreases ls.len() - i,
    {
        let l = &ls[i];
        assert(l@.skip(0) =~= l@);
        let heading = matches_at(l, 0, &hash);
        let t = trim_chars(l);
        if !heading && t.len() > 0 {
            append_chars(&mut out, l);
            out.push('\n');
        }
        assert(views(ls@).take(i + 1).drop_last() =~= views(ls@).take(i as int));
        assert(views(ls@).take(i + 1).last() == ls@[i as int]@);
        assert(out@ =~= plaintext_of(views(ls@).take(i + 1)));
        i = i + 1;
    }
    assert(views(ls@).take(ls.len() as int) =~= views(ls@));
    string_of(&out)
}

// ---------------------------------------------------------------------------
// Escaping
// ---------------------------------------------------------------------------

/// The five XML entities decoded, `&amp;` first.
pub open spec fn decode_entities_spec(s: Seq<char>) -> Seq<char> {
    let s1 = replace_all(s, "&amp;"@, "&"@);
    let s2 = replace_all(s1, "&lt;"@, "<"@);
    let s3 = replace_all(s2, "&gt;"@, ">"@);
    let s4 = replace_all(s3, "&quot;"@, "\""@);
    replace_all(s4, "&apos;"@, "'"@)
}

/// Decodes `&amp;`, `&lt;`, `&gt;`, `&quot;` and `&apos;`, in that order, each everywhere.
pub fn decode_entities(s: &str) -> (out: String)
    ensures
        out@ == decode_entities_spec(s@),
{
    proof {
        reveal_strlit("&amp;");
        reveal_strlit("&lt;");
        reveal_strlit("&gt;");
        reveal_strlit("&quot;");
        reveal_strlit("&apos;");
    }
    let v = chars_of(s);
    let v = replace_chars(&v, &chars_of("&amp;"), &chars_of("&"));
    let v = replace_chars(&v, &chars_of("&lt;"), &chars_of("<"));
    let v = replace_chars(&v, &chars_of("&gt;"), &chars_of(">"));
    let v = replace_chars(&v, &chars_of("&quot;"), &chars_of("\""));
    let v = replace_chars(&v, &chars_of("&apos;"), &chars_of("'"));
    string_of(&v)
}

/// `&`, `<`, `>` and `"` escaped for XML text, `&` first.
pub open spec fn escape_xml_spec(s: Seq<char>) -> Seq<char> {
    let s1 = replace_all(s, "&"@, "&amp;"@);
    let s2 = replace_all(s1, "<"@, "&lt;"@);
    let s3 = replace_all(s2, ">"@, "&gt;"@);
    replace_all(s3, "\""@, "&quot;"@)
}

pub fn escape_xml_chars(v: &Vec<char>) -> (out: Vec<char>)
    ensures
        out@ == escape_xml_spec(v@),
{
    proof {
        reveal_strlit("&");
        reveal_strlit("<");
        reveal_strlit(">");
        reveal_strlit("\"");
    }
    let v = replace_chars(v, &chars_of("&"), &chars_of("&amp;"));
    let v = replace_chars(&v, &chars_of("<"), &chars_of("&lt;"));
    let v = replace_chars(&v, &chars_of(">"), &chars_of("&gt;"));
    replace_chars(&v, &chars_of("\""), &chars_of("&quot;"))
}

/// Escapes `&`, `<`, `>` and `"` for XML text.
pub fn escape_xml(s: &str) -> (out: String)
    ensures
        out@ == escape_xml_spec(s@),
{
    let v = chars_of(s);
    string_of(&escape_xml_chars(&v))
}

/// Whether a text holds no `c`.
pub open spec fn no_char(s: Seq<char>, c: char) -> bool {
    forall|k: int| 0 <= k < s.len() ==> s[k] != c
}

/// Replacing a character that a text does not hold leaves it as it is.
proof fn lemma_replace_absent(s: Seq<char>, c: char, r: Seq<char>)
    requires
        no_char(s, c),
    ensures
        replace_all(s, seq![c], r) == s,
    decreases s.len(),
{
    if s.len() > 0 {
        assert(!starts_with(s, seq![c])) by {
            if starts_with(s, seq![c]) {
                assert(s.take(1)[0] == s[0]);
            }
        }
        let t = s.drop_first();
        assert(no_char(t, c)) by {
            assert forall|k: int| 0 <= k < t.len() implies t[k] != c by {
                assert(t[k] == s[k + 1]);
            }
        }
        lemma_replace_absent(t, c, r);
        assert(seq![s[0]] + t =~= s);
    }
}

/// After replacing every `c` by text without `d`, the text holds no `d` when it held none
/// besides the `c`s.
proof fn lemma_replace_keeps_out(s: Seq<char>, c: char, r: Seq<char>, d: char)
    requires
        d == c || no_char(s, d),
        no_char(r, d),
    ensures
        no_char(replace_all(s, seq![c], r), d),
    decreases s.len(),
{
    if s.len() > 0 {
        let out = replace_all(s, seq![c], r);
        if starts_with(s, seq![c]) {
            let t = s.skip(1);
            assert(d == c || no_char(t, d)) by {
                if d != c {
                    assert forall|k: int| 0 <= k < t.len() implies t[k] != d by {
                        assert(t[k] == s[k + 1]);
                    }
                }
            }
            lemma_replace_keeps_out(t, c, r, d);
            assert forall|k: int| 0 <= k < out.len() implies out[k] != d by {
                if k >= r.len() {
                    assert(out[k] == replace_all(t, seq![c], r)[k - r.len()]);
                }
            }
        } else {
            let t = s.drop_first();
            assert(s[0] != c) by {
                if s[0] == c {
                    assert(s.take(1) =~= seq![c]);
                }
            }
            assert(d == c || no_char(t, d)) by {
                if d != c {
                    assert forall|k: int| 0 <= k < t.len() implies t[k] != d by {
                        assert(t[k] == s[k + 1]);
                    }
                }
            }
            lemma_replace_keeps_out(t, c, r, d);
            assert forall|k: int| 0 <= k < out.len() implies out[k] != d by {
                if k >= 1 {
                    assert(out[k] == replace_all(t, seq![c], r)[k - 1]);
                }
            }
        }
    }
}

/// Text escaped for XML holds no `<`, `>` or `"`; text that holds none of `&`, `<`, `>`,
/// `"` is left as it is.
pub proof fn lemma_escape_xml_shape(s: Seq<char>)
    ensures
        no_char(escape_xml_spec(s), '<'),
        no_char(escape_xml_spec(s), '>'),
        no_char(escape_xml_spec(s), '"'),
        no_char(s, '&') && no_char(s, '<') && no_char(s, '>') && no_char(s, '"')
            ==> escape_xml_spec(s) == s,
{
    reveal_strlit("&");
    reveal_strlit("<");
    reveal_strlit(">");
    reveal_strlit("\"");
    reveal_strlit("&amp;");
    reveal_strlit("&lt;");
    reveal_strlit("&gt;");
    reveal_strlit("&quot;");
    assert("&"@ =~= seq!['&']);
    assert("<"@ =~= seq!['<']);
    assert(">"@ =~= seq!['>']);
    assert("\""@ =~= seq!['"']);
    let s1 = replace_all(s, "&"@, "&amp;"@);
    let s2 = replace_all(s1, "<"@, "&lt;"@);
    let s3 = replace_all(s2, ">"@, "&gt;"@);
    let amp = "&amp;"@;
    let lt = "&lt;"@;
    let gt = "&gt;"@;
    let quot = "&quot;"@;
    assert(no_char(amp, '<') && no_char(amp, '>') && no_char(amp, '"')) by {
        assert(amp =~= seq!['&', 'a', 'm', 'p', ';']);
    }
    assert(no_char(lt, '<') && no_char(lt, '>') && no_char(lt, '"')) by {
        assert(lt =~= seq!['&', 'l', 't', ';']);
    }
    assert(no_char(gt, '<') && no_char(gt, '>') && no_char(gt, '"')) by {
        assert(gt =~= seq!['&', 'g', 't', ';']);
    }
    assert(no_char(quot, '<') && no_char(quot, '>') && no_char(quot, '"')) by {
        assert(quot =~= seq!['&', 'q', 'u', 'o', 't', ';']);
    }
    lemma_replace_keeps_out(s1, '<', lt, '<');
    lemma_replace_keeps_out(s2, '>', gt, '<');
    lemma_replace_keeps_out(s3, '"', quot, '<');
    lemma_replace_keeps_out(s2, '>', gt, '>');
    lemma_replace_keeps_out(s3, '"', quot, '>');
    lemma_replace_keeps_out(s3, '"', quot, '"');
    if no_char(s, '&') && no_char(s, '<') && no_char(s, '>') && no_char(s, '"') {
        lemma_replace_absent(s, '&', amp);
        lemma_replace_absent(s, '<', lt);
        lemma_replace_absent(s, '>', gt);
        lemma_replace_absent(s, '"', quot);
    }
}

/// Replacing a single character distributes over concatenation.
proof fn lemma_replace_char_concat(u: Seq<char>, v: Seq<char>, c: char, r: Seq<char>)
    ensures
        replace_all(u + v, seq![c], r) == replace_all(u, seq![c], r) + replace_all(v, seq![c], r),
    decreases u.len(),
{
    if u.len() == 0 {
        assert(u + v =~= v);
        assert(replace_all(u, seq![c], r) + replace_all(v, seq![c], r) =~= replace_all(v, seq![c], r));
    } else {
        let w = u + v;
        assert(w[0] == u[0]);
        assert(w.take(1) =~= u.take(1));
        lemma_replace_char_concat(u.drop_first(), v, c, r);
        assert(w.take(1) =~= seq![u[0]]);
        assert(u.take(1) =~= seq![u[0]]);
        if u[0] == c {
            assert(starts_with(w, seq![c]) && starts_with(u, seq![c]));
            assert(w.skip(1) =~= u.skip(1) + v);
        } else {
            assert(seq![u[0]][0] != seq![c][0]);
            assert(!starts_with(w, seq![c]) && !starts_with(u, seq![c]));
            assert(w.drop_first() =~= u.drop_first() + v);
        }
        assert(replace_all(w, seq![c], r) =~= replace_all(u, seq![c], r) + replace_all(v, seq![c], r));
    }
}

/// Text without `&` is left as it is by replacing a pattern that starts with `&`.
proof fn lemma_replace_amp_free(u: Seq<char>, v: Seq<char>, p: Seq<char>, r: Seq<char>)
    requires
        no_char(u, '&'),
        p.len() > 0,
        p[0] == '&',
    ensures
        replace_all(u + v, p, r) == u + replace_all(v, p, r),
    decreases u.len(),
{
    if u.len() == 0 {
        assert(u + v =~= v);
    } else {
        let w = u + v;
        assert(w[0] == u[0] && u[0] != '&');
        assert(!starts_with(w, p)) by {
            if starts_with(w, p) {
                assert(w.take(p.len() as int)[0] == w[0]);
            }
        }
        let t = u.drop_first();
        assert(no_char(t, '&')) by {
            assert forall|k: int| 0 <= k < t.len() implies t[k] != '&' by {
                assert(t[k] == u[k + 1]);
            }
        }
        lemma_replace_amp_free(t, v, p, r);
        assert(w.drop_first() =~= t + v);
        assert(seq![u[0]] + (t + replace_all(v, p, r)) =~= u + replace_all(v, p, r));
    }
}

/// An entity that is not the pattern is left as it is; the pattern itself is replaced.
proof fn lemma_replace_entity(e: Seq<char>, v: Seq<char>, p: Seq<char>, r: Seq<char>)
    requires
        e.len() >= 2,
        e[0] == '&',
        no_char(e.drop_first(), '&'),
        p.len() >= 2,
        p[0] == '&',
        e == p || e[1] != p[1],
    ensures
        replace_all(e + v, p, r) == if e == p {
            r + replace_all(v, p, r)
        } else {
            e + replace_all(v, p, r)
        },
{
    let w = e + v;
    if e == p {
        assert(w.take(p.len() as int) =~= p);
        assert(w.skip(p.len() as int) =~= v);
    } else {
        assert(!starts_with(w, p)) by {
            if starts_with(w, p) {
                assert(w.take(p.len() as int)[1] == w[1]);
            }
        }
        lemma_replace_amp_free(e.drop_first(), v, p, r);
        assert(w.drop_first() =~= e.drop_first() + v);
        assert(seq![e[0]] + (e.drop_first() + replace_all(v, p, r)) =~= e + replace_all(v, p, r));
    }
}

/// How a character is written in escaped XML text.
pub open spec fn xml_escaped_char(c: char) -> Seq<char> {
    if c == '&' {
        seq!['&', 'a', 'm', 'p', ';']
    } else if c == '<' {
        seq!['&', 'l', 't', ';']
    } else if c == '>' {
        seq!['&', 'g', 't', ';']
    } else if c == '"' {
        seq!['&', 'q', 'u', 'o', 't', ';']
    } else {
        seq![c]
    }
}

proof fn lemma_entity_literals()
    ensures
        "&"@ == seq!['&'],
        "<"@ == seq!['<'],
        ">"@ == seq!['>'],
        "\""@ == seq!['"'],
        "'"@ == seq!['\''],
        "&amp;"@ == seq!['&', 'a', 'm', 'p', ';'],
        "&lt;"@ == seq!['&', 'l', 't', ';'],
        "&gt;"@ == seq!['&', 'g', 't', ';'],
        "&quot;"@ == seq!['&', 'q', 'u', 'o', 't', ';'],
        "&apos;"@ == seq!['&', 'a', 'p', 'o', 's', ';'],
{
    reveal_strlit("&");
    reveal_strlit("<");
    reveal_strlit(">");
    reveal_strlit("\"");
    reveal_strlit("'");
    reveal_strlit("&amp;");
    reveal_strlit("&lt;");
    reveal_strlit("&gt;");
    reveal_strlit("&quot;");
    reveal_strlit("&apos;");
    assert("&"@ =~= seq!['&']);
    assert("<"@ =~= seq!['<']);
    assert(">"@ =~= seq!['>']);
    assert("\""@ =~= seq!['"']);
    assert("'"@ =~= seq!['\'']);
    assert("&amp;"@ =~= seq!['&', 'a', 'm', 'p', ';']);
    assert("&lt;"@ =~= seq!['&', 'l', 't', ';']);
    assert("&gt;"@ =~= seq!['&', 'g', 't', ';']);
    assert("&quot;"@ =~= seq!['&', 'q', 'u', 'o', 't', ';']);
    assert("&apos;"@ =~= seq!['&', 'a', 'p', 'o', 's', ';']);
}

/// Escaping a text writes its first character as `xml_escaped_char` and escapes the rest.
proof fn lemma_escape_cons(x: char, t: Seq<char>)
    ensures
        escape_xml_spec(seq![x] + t) == xml_escaped_char(x) + escape_xml_spec(t),
{
    lemma_entity_literals();
    let lt = seq!['&', 'l', 't', ';'];
    let gt = seq!['&', 'g', 't', ';'];
    let qt = seq!['&', 'q', 'u', 'o', 't', ';'];
    let amp = seq!['&', 'a', 'm', 'p', ';'];
    let one = seq![x];
    lemma_replace_char_concat(one, t, '&', amp);
    let a0 = replace_all(one, seq!['&'], amp);
    let b0 = replace_all(t, seq!['&'], amp);
    lemma_replace_char_concat(a0, b0, '<', lt);
    let a1 = replace_all(a0, seq!['<'], lt);
    let b1 = replace_all(b0, seq!['<'], lt);
    lemma_replace_char_concat(a1, b1, '>', gt);
    let a2 = replace_all(a1, seq!['>'], gt);
    let b2 = replace_all(b1, seq!['>'], gt);
    lemma_replace_char_concat(a2, b2, '"', qt);
    let a3 = replace_all(a2, seq!['"'], qt);
    // The first character on its own.
    assert(one.take(1) =~= one);
    assert(one.skip(1) =~= Seq::<char>::empty());
    assert(one.drop_first() =~= Seq::<char>::empty());
    assert(no_char(amp, '<') && no_char(amp, '>') && no_char(amp, '"')) by {
        assert(amp =~= seq!['&', 'a', 'm', 'p', ';']);
    }
    assert(no_char(lt, '>') && no_char(lt, '"') && no_char(gt, '"'));
    let e = Seq::<char>::empty();
    assert(replace_all(e, seq!['&'], amp) == e);
    assert(replace_all(e, seq!['<'], lt) == e);
    assert(replace_all(e, seq!['>'], gt) == e);
    assert(replace_all(e, seq!['"'], qt) == e);
    if x == '&' {
        assert(starts_with(one, seq!['&']));
        assert(a0 == amp + replace_all(e, seq!['&'], amp));
        assert(a0 =~= amp);
        lemma_replace_absent(amp, '<', lt);
        lemma_replace_absent(amp, '>', gt);
        lemma_replace_absent(amp, '"', qt);
    } else if x == '<' {
        lemma_replace_absent(one, '&', amp);
        assert(starts_with(one, seq!['<']));
        assert(a1 == lt + replace_all(e, seq!['<'], lt));
        assert(a1 =~= lt);
        lemma_replace_absent(lt, '>', gt);
        lemma_replace_absent(lt, '"', qt);
    } else if x == '>' {
        lemma_replace_absent(one, '&', amp);
        lemma_replace_absent(one, '<', lt);
        assert(starts_with(one, seq!['>']));
        assert(a2 == gt + replace_all(e, seq!['>'], gt));
        assert(a2 =~= gt);
        lemma_replace_absent(gt, '"', qt);
    } else if x == '"' {
        lemma_replace_absent(one, '&', amp);
        lemma_replace_absent(one, '<', lt);
        lemma_replace_absent(one, '>', gt);
        assert(starts_with(one, seq!['"']));
        assert(a3 == qt + replace_all(e, seq!['"'], qt));
        assert(a3 =~= qt);
    } else {
        lemma_replace_absent(one, '&', amp);
        lemma_replace_absent(one, '<', lt);
        lemma_replace_absent(one, '>', gt);
        lemma_replace_absent(one, '"', qt);
    }
    assert(a3 == xml_escaped_char(x));
}

/// Whether a text starts with one of the entities that escaping writes: `&amp;`, `&lt;`,
/// `&gt;` or `&quot;`.
pub open spec fn starts_with_entity(s: Seq<char>) -> bool {
    ||| starts_with(s, seq!['&', 'a', 'm', 'p', ';'])
    ||| starts_with(s, seq!['&', 'l', 't', ';'])
    ||| starts_with(s, seq!['&', 'g', 't', ';'])
    ||| starts_with(s, seq!['&', 'q', 'u', 'o', 't', ';'])
}

/// Every `&` in escaped XML text begins one of the entities `&amp;`, `&lt;`, `&gt;`,
/// `&quot;`.
pub proof fn lemma_escape_xml_entities(s: Seq<char>)
    ensures
        forall|k: int|
            0 <= k < escape_xml_spec(s).len() && #[trigger] escape_xml_spec(s)[k] == '&'
                ==> starts_with_entity(escape_xml_spec(s).skip(k)),
    decreases s.len(),
{
    lemma_entity_literals();
    if s.len() == 0 {
        let e = Seq::<char>::empty();
        assert(escape_xml_spec(e) == e);
    } else {
        let x = s[0];
        let t = s.drop_first();
        assert(s =~= seq![x] + t);
        lemma_escape_cons(x, t);
        lemma_escape_xml_entities(t);
        let h = xml_escaped_char(x);
        let et = escape_xml_spec(t);
        let es = escape_xml_spec(s);
        assert(es == h + et);
        assert forall|k: int| 0 <= k < es.len() && #[trigger] es[k] == '&' implies starts_with_entity(
            es.skip(k),
        ) by {
            if k < h.len() {
                assert(es[k] == h[k]);
                assert(k == 0);
                assert(es.take(h.len() as int) =~= h);
                assert(es.skip(0) =~= es);
                assert(x == '&' || x == '<' || x == '>' || x == '"');
                assert(es.skip(k).take(h.len() as int) =~= h);
            } else {
                assert(es[k] == et[k - h.len()]);
                assert(es.skip(k) =~= et.skip(k - h.len()));
            }
        }
    }
}

/// Decoding distributes over a text that starts with a character written as
/// `xml_escaped_char`: the written character comes back.
proof fn lemma_decode_cons(x: char, v: Seq<char>)
    requires
        x != '&',
    ensures
        decode_entities_spec(xml_escaped_char(x) + v) == seq![x] + decode_entities_spec(v),
{
    lemma_entity_literals();
    let amp = seq!['&', 'a', 'm', 'p', ';'];
    let lt = seq!['&', 'l', 't', ';'];
    let gt = seq!['&', 'g', 't', ';'];
    let qt = seq!['&', 'q', 'u', 'o', 't', ';'];
    let ap = seq!['&', 'a', 'p', 'o', 's', ';'];
    let v1 = replace_all(v, amp, seq!['&']);
    let v2 = replace_all(v1, lt, seq!['<']);
    let v3 = replace_all(v2, gt, seq!['>']);
    let v4 = replace_all(v3, qt, seq!['"']);
    let one = seq![x];
    assert(no_char(one, '&'));
    assert(no_char(lt.drop_first(), '&')) by {
        assert(lt.drop_first() =~= seq!['l', 't', ';']);
    }
    assert(no_char(gt.drop_first(), '&')) by {
        assert(gt.drop_first() =~= seq!['g', 't', ';']);
    }
    assert(no_char(qt.drop_first(), '&')) by {
        assert(qt.drop_first() =~= seq!['q', 'u', 'o', 't', ';']);
    }
    if x == '<' {
        lemma_replace_entity(lt, v, amp, seq!['&']);
        lemma_replace_entity(lt, v1, lt, seq!['<']);
        assert(no_char(seq!['<'], '&'));
        lemma_replace_amp_free(seq!['<'], v2, gt, seq!['>']);
        lemma_replace_amp_free(seq!['<'], v3, qt, seq!['"']);
        lemma_replace_amp_free(seq!['<'], v4, ap, seq!['\'']);
    } else if x == '>' {
        lemma_replace_entity(gt, v, amp, seq!['&']);
        lemma_replace_entity(gt, v1, lt, seq!['<']);
        lemma_replace_entity(gt, v2, gt, seq!['>']);
        assert(no_char(seq!['>'], '&'));
        lemma_replace_amp_free(seq!['>'], v3, qt, seq!['"']);
        lemma_replace_amp_free(seq!['>'], v4, ap, seq!['\'']);
    } else if x == '"' {
        lemma_replace_entity(qt, v, amp, seq!['&']);
        lemma_replace_entity(qt, v1, lt, seq!['<']);
        lemma_replace_entity(qt, v2, gt, seq!['>']);
        lemma_replace_entity(qt, v3, qt, seq!['"']);
        assert(no_char(seq!['"'], '&'));
        lemma_replace_amp_free(seq!['"'], v4, ap, seq!['\'']);
    } else {
        lemma_replace_amp_free(one, v, amp, seq!['&']);
        lemma_replace_amp_free(one, v1, lt, seq!['<']);
        lemma_replace_amp_free(one, v2, gt, seq!['>']);
        lemma_replace_amp_free(one, v3, qt, seq!['"']);
        lemma_replace_amp_free(one, v4, ap, seq!['\'']);
    }
}

/// Decoding undoes escaping for text without `&`, and leaves such text as it is:
/// `decode_entities(escape_xml(s)) == s` and `decode_entities(s) == s`.
pub proof fn lemma_decode_undoes_escape(s: Seq<char>)
    requires
        no_char(s, '&'),
    ensures
        decode_entities_spec(escape_xml_spec(s)) == s,
        decode_entities_spec(s) == s,
    decreases s.len(),
{
    lemma_entity_literals();
    if s.len() == 0 {
        let e = Seq::<char>::empty();
        assert(escape_xml_spec(e) == e);
        assert(decode_entities_spec(e) == e);
    } else {
        let x = s[0];
        let t = s.drop_first();
        assert(no_char(t, '&')) by {
            assert forall|k: int| 0 <= k < t.len() implies t[k] != '&' by {
                assert(t[k] == s[k + 1]);
            }
        }
        assert(s =~= seq![x] + t);
        lemma_decode_undoes_escape(t);
        lemma_escape_cons(x, t);
        lemma_decode_cons(x, escape_xml_spec(t));
        lemma_decode_cons_plain(x, t);
    }
}

/// Decoding leaves a first character other than `&` in place.
proof fn lemma_decode_cons_plain(x: char, v: Seq<char>)
    requires
        x != '&',
    ensures
        decode_entities_spec(seq![x] + v) == seq![x] + decode_entities_spec(v),
{
    lemma_entity_literals();
    let amp = seq!['&', 'a', 'm', 'p', ';'];
    let lt = seq!['&', 'l', 't', ';'];
    let gt = seq!['&', 'g', 't', ';'];
    let qt = seq!['&', 'q', 'u', 'o', 't', ';'];
    let ap = seq!['&', 'a', 'p', 'o', 's', ';'];
    let one = seq![x];
    assert(no_char(one, '&'));
    let v1 = replace_all(v, amp, seq!['&']);
    let v2 = replace_all(v1, lt, seq!['<']);
    let v3 = replace_all(v2, gt, seq!['>']);
    let v4 = replace_all(v3, qt, seq!['"']);
    lemma_replace_amp_free(one, v, amp, seq!['&']);
    lemma_replace_amp_free(one, v1, lt, seq!['<']);
    lemma_replace_amp_free(one, v2, gt, seq!['>']);
    lemma_replace_amp_free(one, v3, qt, seq!['"']);
    lemma_replace_amp_free(one, v4, ap, seq!['\'']);
}

pub open spec fn all_ascii_alnum(s: Seq<char>) -> bool {
    forall|i: int| 0 <= i < s.len() ==> is_ascii_alnum(#[trigger] s[i])
}

/// A string as one shell word: unchanged when it is ASCII letters and digits only, else in
/// single quotes with each `'` written `'\''`.
pub open spec fn shell_escape_spec(s: Seq<char>) -> Seq<char> {
    if all_ascii_alnum(s) {
        s
    } else {
        seq!['\''] + replace_all(s, seq!['\''], "'\\''"@) + seq!['\'']
    }
}

/// How `sh` reads a word made of unquoted ASCII letters and digits, single-quoted stretches
/// (which hold no `'`) and backslash-escaped characters: the word's value, or `None` when
/// the word holds anything else (a blank, another special character, an unclosed quote).
pub open spec fn sh_word(w: Seq<char>) -> Option<Seq<char>>
    decreases w.len(),
{
    if w.len() == 0 {
        Some(seq![])
    } else if w[0] == '\'' {
        let body = w.drop_first();
        let i = first_index(body, '\'');
        if i < 0 || i >= body.len() {
            None
        } else {
            match sh_word(body.skip(i + 1)) {
                Some(v) => Some(body.take(i) + v),
                None => None,
            }
        }
    } else if w[0] == '\\' {
        if w.len() < 2 || w[1] == '\n' {
            None
        } else {
            match sh_word(w.skip(2)) {
                Some(v) => Some(seq![w[1]] + v),
                None => None,
            }
        }
    } else if is_ascii_alnum(w[0]) {
        match sh_word(w.drop_first()) {
            Some(v) => Some(seq![w[0]] + v),
            None => None,
        }
    } else {
        None
    }
}

proof fn lemma_sh_word_alnum(s: Seq<char>)
    requires
        all_ascii_alnum(s),
    ensures
        sh_word(s) == Some(s),
    decreases s.len(),
{
    if s.len() > 0 {
        let t = s.drop_first();
        assert(all_ascii_alnum(t)) by {
            assert forall|i: int| 0 <= i < t.len() implies is_ascii_alnum(#[trigger] t[i]) by {
                assert(t[i] == s[i + 1]);
            }
        }
        assert(is_ascii_alnum(s[0]));
        assert(s[0] != '\'' && s[0] != '\\');
        lemma_sh_word_alnum(t);
        assert(seq![s[0]] + t =~= s);
    }
}

/// Replacing every `c` in a text whose first `c` follows a stretch without one.
proof fn lemma_replace_split(a: Seq<char>, b: Seq<char>, c: char, r: Seq<char>)
    requires
        no_char(a, c),
    ensures
        replace_all(a + seq![c] + b, seq![c], r) == a + r + replace_all(b, seq![c], r),
    decreases a.len(),
{
    let s = a + seq![c] + b;
    if a.len() == 0 {
        assert(s.take(1) =~= seq![c]);
        assert(s.skip(1) =~= b);
        assert(a + r + replace_all(b, seq![c], r) =~= r + replace_all(b, seq![c], r));
    } else {
        let t = a.drop_first();
        assert(no_char(t, c)) by {
            assert forall|k: int| 0 <= k < t.len() implies t[k] != c by {
                assert(t[k] == a[k + 1]);
            }
        }
        assert(s[0] == a[0]);
        assert(!starts_with(s, seq![c])) by {
            if starts_with(s, seq![c]) {
                assert(s.take(1)[0] == s[0]);
            }
        }
        lemma_replace_split(t, b, c, r);
        assert(s.drop_first() =~= t + seq![c] + b);
        assert(seq![a[0]] + (t + r + replace_all(b, seq![c], r)) =~= a + r + replace_all(b, seq![c], r));
    }
}

/// The quoted form of a text reads back as the text.
proof fn lemma_sh_word_quoted(s: Seq<char>)
    ensures
        sh_word(seq!['\''] + replace_all(s, seq!['\''], seq!['\'', '\\', '\'', '\'']) + seq!['\''])
            == Some(s),
    decreases s.len(),
{
    let q = seq!['\'', '\\', '\'', '\''];
    lemma_first_index_bounds(s, '\'');
    let i = first_index(s, '\'');
    if i == s.len() {
        assert(no_char(s, '\''));
        lemma_replace_absent(s, '\'', q);
        let w = seq!['\''] + s + seq!['\''];
        let body = w.drop_first();
        assert(body =~= s + seq!['\'']);
        assert forall|k: int| 0 <= k < s.len() implies #[trigger] body[k] != '\'' by {
            assert(body[k] == s[k]);
        }
        lemma_first_index_at(body, '\'', s.len() as int);
        assert(body.skip(s.len() as int + 1) =~= Seq::<char>::empty());
        assert(body.take(s.len() as int) =~= s);
        assert(s + Seq::<char>::empty() =~= s);
        assert(w[0] == '\'');
        assert(sh_word(Seq::<char>::empty()) == Some(Seq::<char>::empty()));
        assert(sh_word(w) == Some(s));
    } else {
        let a = s.take(i);
        let b = s.skip(i + 1);
        assert(no_char(a, '\'')) by {
            assert forall|k: int| 0 <= k < a.len() implies a[k] != '\'' by {
                assert(a[k] == s[k]);
            }
        }
        assert(s =~= a + seq!['\''] + b);
        lemma_replace_split(a, b, '\'', q);
        lemma_sh_word_quoted(b);
        let qb = replace_all(b, seq!['\''], q);
        let w = seq!['\''] + (a + q + qb) + seq!['\''];
        let body = w.drop_first();
        assert(body =~= a + q + qb + seq!['\'']);
        assert forall|k: int| 0 <= k < a.len() implies #[trigger] body[k] != '\'' by {
            assert(body[k] == a[k]);
        }
        assert(body[a.len() as int] == '\'');
        lemma_first_index_at(body, '\'', a.len() as int);
        let rest = body.skip(a.len() as int + 1);
        assert(rest =~= seq!['\\', '\''] + (seq!['\''] + qb + seq!['\'']));
        assert(rest[0] == '\\' && rest[1] == '\'');
        assert(rest.skip(2) =~= seq!['\''] + qb + seq!['\'']);
        assert(body.take(a.len() as int) =~= a);
        assert(a + (seq!['\''] + b) =~= s);
        assert(sh_word(rest.skip(2)) == Some(b));
        assert(sh_word(rest) == Some(seq!['\''] + b));
        assert(w[0] == '\'');
        assert(sh_word(w) == Some(s));
        assert(replace_all(s, seq!['\''], q) == a + q + qb);
    }
}

/// A quoted text is read by `sh` as one word whose value is the text: `shell_escape` of a
/// nonempty text gives a word of letters and digits, quoted stretches and escaped quotes
/// that reads back as exactly that text.
pub proof fn lemma_shell_escape_one_word(s: Seq<char>)
    requires
        s.len() > 0,
    ensures
        sh_word(shell_escape_spec(s)) == Some(s),
{
    reveal_strlit("'\\''");
    assert("'\\''"@ =~= seq!['\'', '\\', '\'', '\'']);
    if all_ascii_alnum(s) {
        lemma_sh_word_alnum(s);
    } else {
        lemma_sh_word_quoted(s);
    }
}

fn is_ascii_alnum_exec(c: char) -> (b: bool)
    ensures
        b == is_ascii_alnum(c),
{
    ('0' <= c && c <= '9') || ('a' <= c && c <= 'z') || ('A' <= c && c <= 'Z')
}

/// Quotes a string for `sh` unless it is made of ASCII letters and digits only.
pub fn shell_escape(s: &str) -> (out: String)
    ensures
        out@ == shell_escape_spec(s@),
{
    let v = chars_of(s);
    let mut i: usize = 0;
    while i < v.len() && is_ascii_alnum_exec(v[i])
        invariant
            i <= v.len(),
            v@ == s@,
            forall|k: int| 0 <= k < i ==> is_ascii_alnum(#[trigger] v@[k]),
        decreases v.len() - i,
    {
        i = i + 1;
    }
    if i == v.len() {
        return string_of(&v);
    }
    assert(!is_ascii_alnum(v@[i as int]));
    assert(!all_ascii_alnum(s@));
    proof {
        reveal_strlit("'\\''");
    }
    let quote = vec!['\''];
    assert(quote@ =~= seq!['\'']);
    let mut out: Vec<char> = vec!['\''];
    let body = replace_chars(&v, &quote, &chars_of("'\\''"));
    append_chars(&mut out, &body);
    out.push('\'');
    assert(out@ =~= shell_escape_spec(s@));
    string_of(&out)
}


// ---------------------------------------------------------------------------
// Text on its own line
// ---------------------------------------------------------------------------

/// The text trimmed, when anything is left.
pub open spec fn trimmed_nonempty_spec(s: Seq<char>) -> Option<Seq<char>> {
    if trim(s).len() > 0 {
        Some(trim(s))
    } else {
        None
    }
}

/// A stored value (a language, a book name): trimmed, and `None` when blank.
pub fn trimmed_nonempty(s: &str) -> (r: Option<String>)
    ensures
        match trimmed_nonempty_spec(s@) {
            None => r is None,
            Some(t) => r matches Some(x) && x@ == t,
        },
{
    let v = chars_of(s);
    let t = trim_chars(&v);
    if t.len() == 0 {
        None
    } else {
        Some(string_of(&t))
    }
}

// ---------------------------------------------------------------------------
// Numbered file names
// ---------------------------------------------------------------------------

/// The first run of decimal digits in `s`, as far as it goes.
pub open spec fn first_digit_run(s: Seq<char>) -> Option<Seq<char>>
    decreases s.len(),
{
    if s.len() == 0 {
        None
    } else if is_digit(s[0]) {
        Some(s.take(digit_prefix_len(s)))
    } else {
        first_digit_run(s.drop_first())
    }
}

/// The number of a file named `<prefix>...<suffix>`: its first run of digits.
pub open spec fn numbered_name_spec(name: Seq<char>, prefix: Seq<char>, suffix: Seq<char>) -> Option<
    u32,
> {
    if starts_with(name, prefix) && ends_with(name, suffix) {
        match first_digit_run(name) {
            Some(d) => parse_u32_spec(d),
            None => None,
        }
    } else {
        None
    }
}

/// The first run of digits in `v[from..]`.
fn first_digit_run_from(v: &Vec<char>, from: usize) -> (r: Option<Vec<char>>)
    requires
        from <= v.len(),
    ensures
        match first_digit_run(v@.skip(from as int)) {
            None => r is None,
            Some(d) => r matches Some(x) && x@ == d,
        },
    decreases v.len() - from,
{
    let ghost s = v@.skip(from as int);
    if from == v.len() {
        return None;
    }
    if !is_digit_exec(v[from]) {
        assert(s.drop_first() =~= v@.skip(from + 1));
        return first_digit_run_from(v, from + 1);
    }
    let mut e = from;
    while e < v.len() && is_digit_exec(v[e])
        invariant
            from <= e <= v.len(),
            forall|k: int| from <= k < e ==> is_digit(#[trigger] v@[k]),
        decreases v.len() - e,
    {
        e = e + 1;
    }
    proof {
        assert forall|k: int| 0 <= k < e - from implies is_digit(#[trigger] s[k]) by {
            assert(s[k] == v@[k + from]);
        }
        lemma_digit_prefix_len_at(s, e - from);
        assert(s.take(e - from) =~= v@.subrange(from as int, e as int));
    }
    Some(slice_chars(v, from, e))
}

/// The section number of a file named `<prefix>...<suffix>`: the first run of digits in the
/// name, when it fits in 32 bits.
pub fn numbered_name(name: &str, prefix: &str, suffix: &str) -> (r: Option<u32>)
    ensures
        r == numbered_name_spec(name@, prefix@, suffix@),
{
    let v = chars_of(name);
    let p = chars_of(prefix);
    let x = chars_of(suffix);
    assert(v@.skip(0) =~= v@);
    if !matches_at(&v, 0, &p) || !ends_with_chars(&v, &x) {
        return None;
    }
    match first_digit_run_from(&v, 0) {
        None => None,
        Some(d) => parse_u32(&d),
    }
}

/// The name of the file that holds section `num` of a stage.
pub open spec fn section_file_name(num: u32) -> Seq<char> {
    "section_"@ + decimal(num as nat) + ".md"@
}

/// The name of the file that holds section `num`.
pub fn section_file(num: u32) -> (out: String)
    ensures
        out@ == section_file_name(num),
{
    let mut v = chars_of("section_");
    push_decimal(&mut v, num as u64);
    append_chars(&mut v, &chars_of(".md"));
    string_of(&v)
}

/// The name of the `.fail` file of section `num`.
pub open spec fn fail_file_name(num: u32) -> Seq<char> {
    "section_"@ + decimal(num as nat) + ".fail"@
}

pub fn fail_file(num: u32) -> (out: String)
    ensures
        out@ == fail_file_name(num),
{
    let mut v = chars_of("section_");
    push_decimal(&mut v, num as u64);
    append_chars(&mut v, &chars_of(".fail"));
    string_of(&v)
}

// ---------------------------------------------------------------------------
// Records of failed sections
// ---------------------------------------------------------------------------

#[verifier::external_type_specification]
#[verifier::external_body]
pub struct ExPathBuf(PathBuf);

/// A section whose processing failed, as recorded in its `.fail` file.
pub struct FailInfo {
    pub num: u32,
    pub stage: String,
    pub settings: Vec<(String, String)>,
    pub path: PathBuf,
}

pub open spec fn pair_views(ps: Seq<(String, String)>) -> Seq<(Seq<char>, Seq<char>)> {
    ps.map_values(|p: (String, String)| (p.0@, p.1@))
}

/// The value of the first setting named `key`.
pub open spec fn lookup(ps: Seq<(Seq<char>, Seq<char>)>, key: Seq<char>) -> Option<Seq<char>>
    decreases ps.len(),
{
    if ps.len() == 0 {
        None
    } else if ps[0].0 == key {
        Some(ps[0].1)
    } else {
        lookup(ps.drop_first(), key)
    }
}

fn same_chars(a: &Vec<char>, b: &Vec<char>) -> (r: bool)
    ensures
        r == (a@ == b@),
{
    if a.len() != b.len() {
        return false;
    }
    let mut i: usize = 0;
    while i < a.len()
        invariant
            i <= a.len() == b.len(),
            forall|k: int| 0 <= k < i ==> a@[k] == b@[k],
        decreases a.len() - i,
    {
        if a[i] != b[i] {
            return false;
        }
        i = i + 1;
    }
    assert(a@ =~= b@);
    true
}

impl FailInfo {
    /// The value of the setting named `key` (the first one, when it occurs twice).
    pub fn setting(&self, key: &str) -> (r: Option<&str>)
        ensures
            match lookup(pair_views(self.settings@), key@) {
                None => r is None,
                Some(v) => r matches Some(x) && x@ == v,
            },
    {
        let k = chars_of(key);
        let ghost ps = pair_views(self.settings@);
        let mut i: usize = 0;
        assert(ps.skip(0) =~= ps);
        while i < self.settings.len()
            invariant
                i <= self.settings.len(),
                ps == pair_views(self.settings@),
                k@ == key@,
                lookup(ps, key@) == lookup(ps.skip(i as int), key@),
            decreases self.settings.len() - i,
        {
            let name = chars_of(self.settings[i].0.as_str());
            assert(ps.skip(i as int)[0] == ps[i as int]);
            assert(ps.skip(i as int).drop_first() =~= ps.skip(i + 1));
            if same_chars(&name, &k) {
                return Some(self.settings[i].1.as_str());
            }
            i = i + 1;
        }
        None
    }
}

/// The settings lines of a `.fail` record: each `key=value` line split at its first `=`;
/// lines without `=` are left out.
pub open spec fn settings_of(ls: Seq<Seq<char>>) -> Seq<(Seq<char>, Seq<char>)>
    decreases ls.len(),
{
    if ls.len() == 0 {
        seq![]
    } else {
        let rest = settings_of(ls.drop_last());
        match split_once(ls.last(), '=') {
            Some(kv) => rest.push(kv),
            None => rest,
        }
    }
}

/// A `.fail` record: its first line is the stage, the others are settings. `None` when
/// the record has no line at all.
pub open spec fn fail_record_spec(content: Seq<char>) -> Option<(Seq<char>, Seq<(Seq<char>, Seq<char>)>)> {
    let ls = lines(content);
    if ls.len() == 0 {
        None
    } else {
        Some((ls[0], settings_of(ls.drop_first())))
    }
}

/// Splits `v` at its first `c`.
fn split_once_chars(v: &Vec<char>, c: char) -> (r: Option<(Vec<char>, Vec<char>)>)
    ensures
        match split_once(v@, c) {
            None => r is None,
            Some(kv) => r matches Some(x) && x.0@ == kv.0 && x.1@ == kv.1,
        },
{
    assert(v@.skip(0) =~= v@);
    let i = crate::text::find_char_from(v, c, 0);
    if i == v.len() {
        return None;
    }
    let a = slice_chars(v, 0, i);
    let b = slice_chars(v, i + 1, v.len());
    assert(a@ =~= v@.take(i as int));
    assert(b@ =~= v@.skip(i + 1));
    Some((a, b))
}

/// Reads a `.fail` record: the stage on its first line, then `key=value` settings.
pub fn parse_fail_record(content: &str) -> (r: Option<(String, Vec<(String, String)>)>)
    ensures
        match fail_record_spec(content@) {
            None => r is None,
            Some(rec) => r matches Some(x) && x.0@ == rec.0 && pair_views(x.1@) == rec.1,
        },
{
    let v = chars_of(content);
    let ls = lines_of(&v);
    if ls.len() == 0 {
        return None;
    }
    let stage = string_of(&ls[0]);
    let ghost rest = views(ls@).drop_first();
    let mut settings: Vec<(String, String)> = Vec::new();
    let mut i: usize = 1;
    assert(rest.take(0) =~= Seq::<Seq<char>>::empty());
    while i < ls.len()
        invariant
            1 <= i <= ls.len(),
            rest == views(ls@).drop_first(),
            pair_views(settings@) == settings_of(rest.take(i - 1)),
        decreases ls.len() - i,
    {
        assert(rest.take(i as int).drop_last() =~= rest.take(i - 1));
        assert(rest.take(i as int).last() == ls@[i as int]@);
        match split_once_chars(&ls[i], '=') {
            Some((k, val)) => {
                let ks = string_of(&k);
                let vs = string_of(&val);
                settings.push((ks, vs));
                assert(pair_views(settings@) =~= settings_of(rest.take(i - 1)).push((k@, val@)));
            },
            None => {},
        }
        i = i + 1;
    }
    assert(rest.take(ls.len() - 1) =~= rest);
    Some((stage, settings))
}

/// The section number in a `.fail` file name `...section_<N>.fail`.
pub open spec fn fail_number_spec(name: Seq<char>) -> Option<u32> {
    if ends_with(name, ".fail"@) {
        let stem = name.take(name.len() - 5);
        let n = trailing_digits(stem);
        let head = stem.take(stem.len() - n);
        if n > 0 && ends_with(head, "section_"@) {
            parse_u32_spec(stem.skip(stem.len() - n))
        } else {
            None
        }
    } else {
        None
    }
}

/// The section number in the name of a `.fail` file (`...section_<N>.fail`).
pub fn fail_number(name: &str) -> (r: Option<u32>)
    ensures
        r == fail_number_spec(name@),
{
    proof {
        reveal_strlit(".fail");
        reveal_strlit("section_");
    }
    let v = chars_of(name);
    let sfx = chars_of(".fail");
    if !ends_with_chars(&v, &sfx) {
        return None;
    }
    let stem_len = v.len() - 5;
    let mut i = stem_len;
    while i > 0 && is_digit_exec(v[i - 1])
        invariant
            i <= stem_len,
            stem_len + 5 == v.len(),
            forall|k: int| i <= k < stem_len ==> is_digit(#[trigger] v@[k]),
        decreases i,
    {
        i = i - 1;
    }
    let ghost stem = v@.take(stem_len as int);
    proof {
        assert forall|k: int| i <= k < stem.len() implies is_digit(#[trigger] stem[k]) by {
            assert(stem[k] == v@[k]);
        }
        if i > 0 {
            assert(stem[i - 1] == v@[i - 1]);
        }
        lemma_trailing_digits_at(stem, i as int);
    }
    let head = slice_chars(&v, 0, i);
    assert(head@ =~= stem.take(i as int));
    if i == stem_len || !ends_with_chars(&head, &chars_of("section_")) {
        return None;
    }
    let d = slice_chars(&v, i, stem_len);
    assert(d@ =~= stem.skip(i as int));
    parse_u32(&d)
}

/// Why a `.fail` file could not be read.
pub enum FailRecordError {
    /// Its name does not end in `section_<N>.fail`.
    NoSectionNumber,
    /// It holds no line.
    Empty,
}

/// A failed section from the name, the content and the path of its `.fail` file.
pub fn fail_info(name: &str, content: &str, path: PathBuf) -> (r: Result<FailInfo, FailRecordError>)
    ensures
        match fail_number_spec(name@) {
            None => r matches Err(e) && e is NoSectionNumber,
            Some(n) => match fail_record_spec(content@) {
                None => r matches Err(e) && e is Empty,
                Some(rec) => r matches Ok(f) && f.num == n && f.stage@ == rec.0 && pair_views(
                    f.settings@,
                ) == rec.1 && f.path == path,
            },
        },
{
    let num = match fail_number(name) {
        None => {
            return Err(FailRecordError::NoSectionNumber);
        },
        Some(n) => n,
    };
    match parse_fail_record(content) {
        None => Err(FailRecordError::Empty),
        Some((stage, settings)) => Ok(FailInfo { num, stage, settings, path }),
    }
}

/// The `.fail` record that translation writes: the stage, then its language, which a retry
/// reads back.
pub open spec fn translate_fail_record_spec(language: Seq<char>) -> Seq<char> {
    "translate\nlanguage="@ + language + seq!['\n']
}

pub fn translate_fail_record(language: &str) -> (out: String)
    ensures
        out@ == translate_fail_record_spec(language@),
{
    let mut v = chars_of("translate\nlanguage=");
    append_chars(&mut v, &chars_of(language));
    v.push('\n');
    string_of(&v)
}

/// The `.fail` record that annotation writes: the stage, then its language and word limit.
pub open spec fn annotate_fail_record_spec(language: Seq<char>, wlimit: Seq<char>) -> Seq<char> {
    "annotate\nlanguage="@ + language + "\nwlimit="@ + wlimit + seq!['\n']
}

pub fn annotate_fail_record(language: &str, wlimit: &str) -> (out: String)
    ensures
        out@ == annotate_fail_record_spec(language@, wlimit@),
{
    let mut v = chars_of("annotate\nlanguage=");
    append_chars(&mut v, &chars_of(language));
    append_chars(&mut v, &chars_of("\nwlimit="));
    append_chars(&mut v, &chars_of(wlimit));
    v.push('\n');
    string_of(&v)
}


/// The first failed section recorded by another stage than `expected`, by index.
pub fn first_unexpected_stage(fails: &Vec<FailInfo>, expected: &str) -> (r: Option<usize>)
    ensures
        match r {
            None => forall|i: int| 0 <= i < fails.len() ==> #[trigger] fails@[i].stage@ == expected@,
            Some(k) => k < fails.len() && fails@[k as int].stage@ != expected@ && forall|i: int|
                0 <= i < k ==> #[trigger] fails@[i].stage@ == expected@,
        },
{
    let e = chars_of(expected);
    let mut i: usize = 0;
    while i < fails.len()
        invariant
            i <= fails.len(),
            e@ == expected@,
            forall|j: int| 0 <= j < i ==> #[trigger] fails@[j].stage@ == expected@,
        decreases fails.len() - i,
    {
        if !same_chars(&chars_of(fails[i].stage.as_str()), &e) {
            return Some(i);
        }
        i = i + 1;
    }
    None
}

// ---------------------------------------------------------------------------
// Ordering by section number
// ---------------------------------------------------------------------------

/// Numbers never decrease along the sequence.
pub open spec fn sorted_by_number<T>(s: Seq<(u32, T)>) -> bool {
    forall|i: int, j: int| 0 <= i < j < s.len() ==> s[i].0 <= s[j].0
}

/// The entries numbered `k`, in their order.
pub open spec fn numbered<T>(s: Seq<(u32, T)>, k: u32) -> Seq<(u32, T)> {
    s.filter(has_number(k))
}

pub open spec fn has_number<T>(k: u32) -> spec_fn((u32, T)) -> bool {
    |e: (u32, T)| e.0 == k
}

proof fn lemma_numbered_none<T>(s: Seq<(u32, T)>, k: u32)
    requires
        forall|i: int| 0 <= i < s.len() ==> s[i].0 != k,
    ensures
        numbered(s, k) == Seq::<(u32, T)>::empty(),
    decreases s.len(),
{
    reveal(Seq::filter);
    if s.len() > 0 {
        lemma_numbered_none(s.drop_last(), k);
        assert(numbered(s, k) =~= numbered(s.drop_last(), k));
    }
}

/// Orders entries by number; entries with the same number keep their order (a stable
/// sort, as `sort_by_key` is).
pub fn sort_by_number<T>(v: Vec<(u32, T)>) -> (r: Vec<(u32, T)>)
    ensures
        sorted_by_number(r@),
        forall|k: u32| #[trigger] numbered(r@, k) == numbered(v@, k),
        r@.len() == v@.len(),
{
    let ghost orig = v@;
    let n = v.len();
    let mut rest = v;
    let mut r: Vec<(u32, T)> = Vec::new();
    let mut i: usize = 0;
    assert(orig.skip(0) =~= orig);
    assert forall|k: u32| #[trigger] numbered(r@, k) == numbered(orig.take(0), k) by {
        assert(orig.take(0) =~= r@);
    }
    while rest.len() > 0
        invariant
            i <= orig.len(),
            orig.len() == n,
            rest@ == orig.skip(i as int),
            r@.len() == i,
            sorted_by_number(r@),
            forall|k: u32| #[trigger] numbered(r@, k) == numbered(orig.take(i as int), k),
        decreases rest.len(),
    {
        let x = rest.remove(0);
        assert(x == orig[i as int]);
        assert(rest@ =~= orig.skip(i + 1));
        let key = x.0;
        let mut p: usize = 0;
        while p < r.len() && r[p].0 <= key
            invariant
                p <= r.len(),
                forall|j: int| 0 <= j < p ==> r@[j].0 <= key,
            decreases r.len() - p,
        {
            p = p + 1;
        }
        let ghost old_r = r@;
        let ghost prev = orig.take(i as int);
        assert(forall|k: u32| #[trigger] numbered(old_r, k) == numbered(prev, k));
        proof {
            assert forall|j: int| p <= j < old_r.len() implies old_r[j].0 > key by {
                if j > p {
                    assert(old_r[p as int].0 <= old_r[j].0);
                }
            }
        }
        r.insert(p, x);
        proof {
            let a = old_r.take(p as int);
            let b = old_r.skip(p as int);
            assert(r@ =~= a + seq![x] + b);
            assert(old_r =~= a + b);
            assert(orig.take(i + 1) =~= orig.take(i as int).push(x));
            assert forall|k: u32| #[trigger] numbered(r@, k) == numbered(orig.take(i + 1), k) by {
                let f = has_number::<T>(k);
                Seq::filter_distributes_over_add(a + seq![x], b, f);
                Seq::filter_distributes_over_add(a, seq![x], f);
                Seq::filter_distributes_over_add(a, b, f);
                orig.take(i as int).lemma_filter_push(x, f);
                assert(a + seq![x] =~= a.push(x));
                a.lemma_filter_push(x, f);
                assert(numbered(old_r, k) == numbered(prev, k));
                assert(numbered(old_r, k) == numbered(a, k) + numbered(b, k));
                if k == key {
                    assert forall|j: int| 0 <= j < b.len() implies b[j].0 != k by {
                        assert(b[j] == old_r[p + j]);
                    }
                    lemma_numbered_none(b, k);
                    assert(numbered(b, k) =~= Seq::<(u32, T)>::empty());
                    assert(numbered(r@, k) =~= numbered(a, k).push(x));
                    assert(numbered(old_r, k) =~= numbered(a, k));
                } else {
                    assert(numbered(r@, k) =~= numbered(a, k) + numbered(b, k));
                    assert(numbered(orig.take(i + 1), k) == numbered(prev, k));
                }
            }
            assert forall|m: int, n: int| 0 <= m < n < r@.len() implies r@[m].0 <= r@[n].0 by {
                if m < p && n < p {
                    assert(r@[m] == old_r[m] && r@[n] == old_r[n]);
                } else if m < p && n == p {
                    assert(r@[m] == old_r[m]);
                } else if m < p && n > p {
                    assert(r@[m] == old_r[m] && r@[n] == old_r[n - 1]);
                } else if m == p {
                    assert(r@[n] == old_r[n - 1]);
                } else {
                    assert(r@[m] == old_r[m - 1] && r@[n] == old_r[n - 1]);
                }
            }
        }
        i = i + 1;
    }
    assert(orig.take(i as int) =~= orig);
    r
}

// ---------------------------------------------------------------------------
// What a section file gives back
// ---------------------------------------------------------------------------

/// The text of the paragraphs that a section keeps: each nonblank one, trimmed, on a line.
pub open spec fn paragraphs_text(ps: Seq<Seq<char>>) -> Seq<char>
    decreases ps.len(),
{
    if ps.len() == 0 {
        seq![]
    } else {
        let t = trim(ps.last());
        paragraphs_text(ps.drop_last()) + if t.len() == 0 {
            Seq::<char>::empty()
        } else {
            t + seq!['\n']
        }
    }
}

proof fn lemma_plaintext_append(a: Seq<Seq<char>>, b: Seq<Seq<char>>)
    ensures
        plaintext_of(a + b) == plaintext_of(a) + plaintext_of(b),
    decreases b.len(),
{
    if b.len() == 0 {
        assert(a + b =~= a);
        assert(plaintext_of(a) + plaintext_of(b) =~= plaintext_of(a));
    } else {
        assert((a + b).drop_last() =~= a + b.drop_last());
        assert((a + b).last() == b.last());
        lemma_plaintext_append(a, b.drop_last());
        assert(plaintext_of(a + b) =~= plaintext_of(a) + plaintext_of(b));
    }
}

proof fn lemma_blocks_end(ps: Seq<Seq<char>>)
    ensures
        paragraph_blocks(ps).len() == 0 || paragraph_blocks(ps).last() == '\n',
    decreases ps.len(),
{
    if ps.len() > 0 {
        lemma_blocks_end(ps.drop_last());
    }
}

/// A paragraph that does not look like a heading once trimmed, and has no newline.
pub open spec fn plain_paragraph(p: Seq<char>) -> bool {
    no_newline(p) && !starts_with(trim(p), seq!['#', ' '])
}

proof fn lemma_block_plaintext(p: Seq<char>)
    requires
        plain_paragraph(p),
    ensures
        plaintext_of(lines(paragraph_block(p))) == if trim(p).len() == 0 {
            Seq::<char>::empty()
        } else {
            trim(p) + seq!['\n']
        },
{
    let t = trim(p);
    if t.len() > 0 {
        lemma_trim_shape(p);
        assert(no_newline(t)) by {
            assert forall|k: int| 0 <= k < t.len() implies t[k] != '\n' by {
                assert(t[k] == p[p.len() - trim_start(p).len() + k]);
            }
        }
        lemma_trim_idempotent(p);
        lemma_lines_cons(Seq::<char>::empty(), t + seq!['\n']);
        assert(paragraph_block(p) =~= Seq::<char>::empty() + seq!['\n'] + (t + seq!['\n']));
        lemma_lines_cons(t, Seq::<char>::empty());
        assert(t + seq!['\n'] =~= t + seq!['\n'] + Seq::<char>::empty());
        assert(strip_cr(t) == t);
        assert(strip_cr(Seq::<char>::empty()) == Seq::<char>::empty());
        let ls = lines(paragraph_block(p));
        assert(ls =~= seq![Seq::<char>::empty(), t]);
        assert(ls.drop_last() =~= seq![Seq::<char>::empty()]);
        assert(seq![Seq::<char>::empty()].drop_last() =~= Seq::<Seq<char>>::empty());
        assert(!is_text_line(Seq::<char>::empty()));
        assert(is_text_line(t));
        assert(ls.last() == t);
        assert(plaintext_of(Seq::<Seq<char>>::empty()) =~= Seq::<char>::empty());
        assert(plaintext_of(seq![Seq::<char>::empty()]) =~= Seq::<char>::empty());
        assert(plaintext_of(ls) =~= t + seq!['\n']);
    } else {
        assert(paragraph_block(p) =~= Seq::<char>::empty());
        assert(lines(Seq::<char>::empty()) =~= Seq::<Seq<char>>::empty());
    }
}

proof fn lemma_blocks_plaintext(ps: Seq<Seq<char>>)
    requires
        forall|i: int| 0 <= i < ps.len() ==> plain_paragraph(#[trigger] ps[i]),
    ensures
        plaintext_of(lines(paragraph_blocks(ps))) == paragraphs_text(ps),
    decreases ps.len(),
{
    if ps.len() == 0 {
        assert(lines(Seq::<char>::empty()) =~= Seq::<Seq<char>>::empty());
    } else {
        let init = ps.drop_last();
        assert forall|i: int| 0 <= i < init.len() implies plain_paragraph(#[trigger] init[i]) by {
            assert(init[i] == ps[i]);
        }
        lemma_blocks_plaintext(init);
        lemma_blocks_end(init);
        lemma_lines_append(paragraph_blocks(init), paragraph_block(ps.last()));
        lemma_plaintext_append(lines(paragraph_blocks(init)), lines(paragraph_block(ps.last())));
        assert(plain_paragraph(ps[ps.len() - 1]));
        lemma_block_plaintext(ps.last());
    }
}

/// Reading back the text of a section: the plain text of a section made from paragraphs
/// (`paragraphs_to_md`) is those paragraphs, trimmed, blank ones left out, one per line,
/// the title line dropped. It holds of paragraphs without newlines that do not start,
/// once trimmed, like a `# ` heading, and of a title without newlines.
pub proof fn lemma_plaintext_round_trip(title: Option<Seq<char>>, ps: Seq<Seq<char>>)
    requires
        title matches Some(t) ==> no_newline(t),
        forall|i: int| 0 <= i < ps.len() ==> plain_paragraph(#[trigger] ps[i]),
    ensures
        plaintext_of(lines(section_md(title, ps))) == paragraphs_text(ps),
{
    lemma_blocks_plaintext(ps);
    match title {
        None => {
            assert(section_md(title, ps) =~= paragraph_blocks(ps));
        },
        Some(t) => {
            let h = seq!['#', ' '] + t;
            assert forall|k: int| 0 <= k < h.len() implies h[k] != '\n' by {
                if k >= 2 {
                    assert(h[k] == t[k - 2]);
                }
            }
            let tb = title_block(title);
            assert(tb =~= h + seq!['\n'] + Seq::<char>::empty());
            lemma_lines_cons(h, Seq::<char>::empty());
            assert(lines(Seq::<char>::empty()) =~= Seq::<Seq<char>>::empty());
            assert(lines(tb) =~= seq![strip_cr(h)]);
            lemma_lines_append(tb, paragraph_blocks(ps));
            lemma_plaintext_append(lines(tb), lines(paragraph_blocks(ps)));
            let l = strip_cr(h);
            assert(l.len() >= 2);
            assert(l.take(2) =~= seq!['#', ' ']);
            assert(starts_with(l, seq!['#', ' ']));
            assert(!is_text_line(l));
            assert(plaintext_of(Seq::<Seq<char>>::empty()) =~= Seq::<char>::empty());
            assert(seq![l].drop_last() =~= Seq::<Seq<char>>::empty());
            assert(plaintext_of(seq![l]) =~= Seq::<char>::empty());
            assert(plaintext_of(lines(section_md(title, ps))) =~= paragraphs_text(ps));
        },
    }
}

/// Whether a text holds no carriage return.
pub open spec fn no_cr(s: Seq<char>) -> bool {
    forall|k: int| 0 <= k < s.len() ==> s[k] != '\r'
}

/// The text lines among `ls`, in order.
pub open spec fn text_lines(ls: Seq<Seq<char>>) -> Seq<Seq<char>>
    decreases ls.len(),
{
    if ls.len() == 0 {
        seq![]
    } else {
        let rest = text_lines(ls.drop_last());
        if is_text_line(ls.last()) {
            rest.push(ls.last())
        } else {
            rest
        }
    }
}

/// No line of a text holds a newline, nor a carriage return when the text holds none.
proof fn lemma_lines_clean(s: Seq<char>)
    ensures
        forall|i: int| 0 <= i < lines(s).len() ==> no_newline(#[trigger] lines(s)[i]),
        no_cr(s) ==> forall|i: int| 0 <= i < lines(s).len() ==> no_cr(#[trigger] lines(s)[i]),
    decreases s.len(),
{
    if s.len() > 0 {
        lemma_first_index_bounds(s, '\n');
        let i = first_index(s, '\n');
        if i < s.len() {
            let rest = s.skip(i + 1);
            lemma_lines_clean(rest);
            let h = strip_cr(s.take(i));
            assert(no_newline(h)) by {
                assert forall|k: int| 0 <= k < h.len() implies h[k] != '\n' by {
                    assert(h[k] == s[k]);
                }
            }
            assert(no_cr(s) ==> no_cr(h)) by {
                if no_cr(s) {
                    assert forall|k: int| 0 <= k < h.len() implies h[k] != '\r' by {
                        assert(h[k] == s[k]);
                    }
                }
            }
            assert(no_cr(s) ==> no_cr(rest)) by {
                if no_cr(s) {
                    assert forall|k: int| 0 <= k < rest.len() implies rest[k] != '\r' by {
                        assert(rest[k] == s[k + i + 1]);
                    }
                }
            }
            let ls = lines(s);
            assert forall|j: int| 0 <= j < ls.len() implies no_newline(#[trigger] ls[j]) && (no_cr(
                s,
            ) ==> no_cr(ls[j])) by {
                if j > 0 {
                    assert(ls[j] == lines(rest)[j - 1]);
                }
            }
        } else {
            assert(lines(s) == seq![s]);
        }
    }
}

/// The lines of a plain text are the text lines it was made of; a plain text is empty or
/// ends with a newline.
proof fn lemma_plaintext_lines(ls: Seq<Seq<char>>)
    requires
        forall|i: int| 0 <= i < ls.len() ==> no_newline(#[trigger] ls[i]) && no_cr(ls[i]),
    ensures
        lines(plaintext_of(ls)) == text_lines(ls),
        plaintext_of(ls).len() == 0 || plaintext_of(ls).last() == '\n',
    decreases ls.len(),
{
    if ls.len() == 0 {
        assert(lines(Seq::<char>::empty()) =~= Seq::<Seq<char>>::empty());
    } else {
        let init = ls.drop_last();
        assert forall|i: int| 0 <= i < init.len() implies no_newline(#[trigger] init[i]) && no_cr(
            init[i],
        ) by {
            assert(init[i] == ls[i]);
        }
        lemma_plaintext_lines(init);
        let l = ls.last();
        assert(no_newline(ls[ls.len() - 1]) && no_cr(ls[ls.len() - 1]));
        if is_text_line(l) {
            let p0 = plaintext_of(init);
            let tail = l + seq!['\n'];
            lemma_lines_append(p0, tail);
            lemma_lines_cons(l, Seq::<char>::empty());
            assert(l + seq!['\n'] + Seq::<char>::empty() =~= tail);
            assert(lines(Seq::<char>::empty()) =~= Seq::<Seq<char>>::empty());
            assert(l.len() > 0 ==> l.last() != '\r');
            assert(strip_cr(l) == l);
            assert(lines(tail) =~= seq![l]);
            assert(plaintext_of(ls) =~= p0 + tail);
            assert(lines(plaintext_of(ls)) =~= text_lines(init).push(l));
        }
    }
}

proof fn lemma_plaintext_text_lines(ls: Seq<Seq<char>>)
    ensures
        plaintext_of(text_lines(ls)) == plaintext_of(ls),
        forall|i: int| 0 <= i < text_lines(ls).len() ==> is_text_line(#[trigger] text_lines(ls)[i]),
    decreases ls.len(),
{
    if ls.len() > 0 {
        let init = ls.drop_last();
        lemma_plaintext_text_lines(init);
        let r = text_lines(init);
        if is_text_line(ls.last()) {
            assert(r.push(ls.last()).drop_last() =~= r);
            let t = text_lines(ls);
            assert forall|i: int| 0 <= i < t.len() implies is_text_line(#[trigger] t[i]) by {
                if i < r.len() {
                    assert(t[i] == r[i]);
                }
            }
        }
    }
}

/// Plain text is its own plain text: taking the plain text of a section (`md_to_plaintext`)
/// twice gives what once gives, for a section without carriage returns. Every line of it is
/// a text line, and it is empty or ends with a newline.
pub proof fn lemma_plaintext_idempotent(md: Seq<char>)
    requires
        no_cr(md),
    ensures
        plaintext_of(lines(plaintext_of(lines(md)))) == plaintext_of(lines(md)),
        forall|i: int|
            0 <= i < lines(plaintext_of(lines(md))).len() ==> is_text_line(
                #[trigger] lines(plaintext_of(lines(md)))[i],
            ),
        plaintext_of(lines(md)).len() == 0 || plaintext_of(lines(md)).last() == '\n',
{
    let ls = lines(md);
    lemma_lines_clean(md);
    lemma_plaintext_lines(ls);
    lemma_plaintext_text_lines(ls);
}

/// Reading back the title of a section: the title of a section made with a title
/// (`paragraphs_to_md` then `md_title`) is that title, trimmed, when it has no newline and
/// is not blank.
pub proof fn lemma_title_round_trip(t: Seq<char>, ps: Seq<Seq<char>>)
    requires
        no_newline(t),
        trim(t).len() > 0,
    ensures
        first_heading(lines(section_md(Some(t), ps))) == Some(trim(t)),
{
    let h = seq!['#', ' '] + t;
    assert forall|k: int| 0 <= k < h.len() implies h[k] != '\n' by {
        if k >= 2 {
            assert(h[k] == t[k - 2]);
        }
    }
    assert(section_md(Some(t), ps) =~= h + seq!['\n'] + paragraph_blocks(ps));
    lemma_lines_cons(h, paragraph_blocks(ps));
    let ls = lines(section_md(Some(t), ps));
    let l = strip_cr(h);
    assert(ls[0] == l);
    if h.last() == '\r' {
        assert(t.len() > 0 && t.last() == '\r');
        assert(l.skip(2) =~= t.drop_last());
        lemma_trim_drop_ws_last(t);
    } else {
        assert(l.skip(2) =~= t);
    }
    assert(l.take(2) =~= seq!['#', ' ']);
    assert(heading_text(l) == Some(trim(t)));
}

/// The first run of digits of a text made of text without digits, the decimal of `n`, then
/// text that does not start with a digit, is the whole decimal of `n`.
pub proof fn lemma_first_digit_run_of(pre: Seq<char>, n: nat, post: Seq<char>)
    requires
        forall|k: int| 0 <= k < pre.len() ==> !is_digit(#[trigger] pre[k]),
        post.len() == 0 || !is_digit(post[0]),
    ensures
        first_digit_run(pre + decimal(n) + post) == Some(decimal(n)),
{
    let d = decimal(n);
    crate::text::lemma_decimal(n);
    let t = d + post;
    assert(pre + d + post =~= pre + t);
    lemma_first_digit_run_after(pre, t);
    assert forall|k: int| 0 <= k < d.len() implies is_digit(#[trigger] t[k]) by {
        assert(t[k] == d[k]);
    }
    if post.len() > 0 {
        assert(t[d.len() as int] == post[0]);
    }
    lemma_digit_prefix_len_at(t, d.len() as int);
    assert(is_digit(t[0]));
    assert(t.take(d.len() as int) =~= d);
}

proof fn lemma_first_digit_run_after(p: Seq<char>, t: Seq<char>)
    requires
        forall|k: int| 0 <= k < p.len() ==> !is_digit(#[trigger] p[k]),
    ensures
        first_digit_run(p + t) == first_digit_run(t),
    decreases p.len(),
{
    if p.len() == 0 {
        assert(p + t =~= t);
    } else {
        let q = p.drop_first();
        assert forall|k: int| 0 <= k < q.len() implies !is_digit(#[trigger] q[k]) by {
            assert(q[k] == p[k + 1]);
        }
        lemma_first_digit_run_after(q, t);
        assert((p + t).drop_first() =~= q + t);
        assert((p + t)[0] == p[0]);
    }
}

/// A section file is found again by its number: the number read from the name of section
/// `n`'s file (`section_file`) is `n`.
pub proof fn lemma_section_file_number(n: u32)
    ensures
        numbered_name_spec(section_file_name(n), "section_"@, ".md"@) == Some(n),
{
    reveal_strlit("section_");
    reveal_strlit(".md");
    let p = "section_"@;
    let d = decimal(n as nat);
    let m = ".md"@;
    let name = section_file_name(n);
    crate::text::lemma_decimal(n as nat);
    lemma_decimal_u32(n);
    assert(name =~= p + (d + m));
    assert(name.take(p.len() as int) =~= p);
    assert(name.skip(name.len() - m.len()) =~= m);
    assert forall|k: int| 0 <= k < p.len() implies !is_digit(#[trigger] p[k]) by {}
    lemma_first_digit_run_after(p, d + m);
    let dm = d + m;
    assert forall|k: int| 0 <= k < d.len() implies is_digit(#[trigger] dm[k]) by {
        assert(dm[k] == d[k]);
    }
    assert(dm[d.len() as int] == '.');
    lemma_digit_prefix_len_at(dm, d.len() as int);
    assert(dm.take(d.len() as int) =~= d);
    assert(is_digit(dm[0]));
}

/// A `.fail` file is found again by its number: the number read from the name of section
/// `n`'s `.fail` file (`fail_file`) is `n`.
pub proof fn lemma_fail_file_number(n: u32)
    ensures
        fail_number_spec(fail_file_name(n)) == Some(n),
{
    reveal_strlit("section_");
    reveal_strlit(".fail");
    let p = "section_"@;
    let d = decimal(n as nat);
    let f = ".fail"@;
    let name = fail_file_name(n);
    crate::text::lemma_decimal(n as nat);
    lemma_decimal_u32(n);
    assert(name.skip(name.len() - f.len()) =~= f);
    let stem = name.take(name.len() - 5);
    assert(stem =~= p + d);
    assert forall|k: int| p.len() <= k < stem.len() implies is_digit(#[trigger] stem[k]) by {
        assert(stem[k] == d[k - p.len()]);
    }
    lemma_trailing_digits_at(stem, p.len() as int);
    assert(stem.take(p.len() as int) =~= p);
    assert(p.skip(0) =~= p);
    assert(stem.skip(p.len() as int) =~= d);
}

/// Retrying an annotation reads back what its `.fail` record keeps: the stage
/// `annotate`, and as settings the language and the word limit, when neither holds a
/// newline or ends with a carriage return.
pub proof fn lemma_annotate_record_round_trip(language: Seq<char>, wlimit: Seq<char>)
    requires
        no_newline(language),
        no_newline(wlimit),
        language.len() == 0 || language.last() != '\r',
        wlimit.len() == 0 || wlimit.last() != '\r',
    ensures
        fail_record_spec(annotate_fail_record_spec(language, wlimit)) == Some(
            ("annotate"@, seq![("language"@, language), ("wlimit"@, wlimit)]),
        ),
        lookup(seq![("language"@, language), ("wlimit"@, wlimit)], "language"@) == Some(language),
        lookup(seq![("language"@, language), ("wlimit"@, wlimit)], "wlimit"@) == Some(wlimit),
{
    reveal_strlit("annotate\nlanguage=");
    reveal_strlit("\nwlimit=");
    reveal_strlit("annotate");
    reveal_strlit("language");
    reveal_strlit("wlimit");
    let a = "annotate"@;
    let lk = "language"@;
    let wk = "wlimit"@;
    let ll = lk + seq!['='] + language;
    let wl = wk + seq!['='] + wlimit;
    let rec = annotate_fail_record_spec(language, wlimit);
    assert(rec =~= a + seq!['\n'] + (ll + seq!['\n'] + (wl + seq!['\n'] + Seq::<char>::empty())));
    assert(no_newline(a));
    assert forall|k: int| 0 <= k < ll.len() implies ll[k] != '\n' by {
        if k > 8 {
            assert(ll[k] == language[k - 9]);
        }
    }
    assert forall|k: int| 0 <= k < wl.len() implies wl[k] != '\n' by {
        if k > 6 {
            assert(wl[k] == wlimit[k - 7]);
        }
    }
    lemma_lines_cons(wl, Seq::<char>::empty());
    lemma_lines_cons(ll, wl + seq!['\n'] + Seq::<char>::empty());
    lemma_lines_cons(a, ll + seq!['\n'] + (wl + seq!['\n'] + Seq::<char>::empty()));
    assert(lines(Seq::<char>::empty()) =~= Seq::<Seq<char>>::empty());
    assert(strip_cr(a) == a);
    assert(strip_cr(ll) == ll);
    assert(strip_cr(wl) == wl);
    let ls = lines(rec);
    assert(ls =~= seq![a, ll, wl]);
    assert forall|k: int| 0 <= k < 8 implies #[trigger] ll[k] != '=' by {
        assert(ll[k] == lk[k]);
    }
    assert(ll[8] == '=');
    lemma_first_index_at(ll, '=', 8);
    assert(ll.take(8) =~= lk);
    assert(ll.skip(9) =~= language);
    assert(split_once(ll, '=') == Some((lk, language)));
    assert forall|k: int| 0 <= k < 6 implies #[trigger] wl[k] != '=' by {
        assert(wl[k] == wk[k]);
    }
    assert(wl[6] == '=');
    lemma_first_index_at(wl, '=', 6);
    assert(wl.take(6) =~= wk);
    assert(wl.skip(7) =~= wlimit);
    assert(split_once(wl, '=') == Some((wk, wlimit)));
    assert(settings_of(Seq::<Seq<char>>::empty()) =~= Seq::<(Seq<char>, Seq<char>)>::empty());
    assert(seq![ll].drop_last() =~= Seq::<Seq<char>>::empty());
    assert(seq![ll].last() == ll);
    assert(settings_of(seq![ll]) =~= seq![(lk, language)]);
    let rest = ls.drop_first();
    assert(rest =~= seq![ll, wl]);
    assert(rest.drop_last() =~= seq![ll]);
    assert(seq![ll].drop_last() =~= Seq::<Seq<char>>::empty());
    assert(settings_of(rest) =~= seq![(lk, language), (wk, wlimit)]);
    let st = seq![(lk, language), (wk, wlimit)];
    assert(st.drop_first() =~= seq![(wk, wlimit)]);
    assert(lk != wk) by {
        assert(lk.len() != wk.len());
    }
    assert(lookup(st.drop_first(), wk) == Some(wlimit));
    assert(lookup(st, wk) == Some(wlimit));
}

/// Retrying a translation reads back what its `.fail` record keeps: the stage `translate`
/// and, as its one setting, the language, when it holds no newline and does not end with a
/// carriage return.
pub proof fn lemma_translate_record_round_trip(language: Seq<char>)
    requires
        no_newline(language),
        language.len() == 0 || language.last() != '\r',
    ensures
        fail_record_spec(translate_fail_record_spec(language)) == Some(
            ("translate"@, seq![("language"@, language)]),
        ),
        lookup(seq![("language"@, language)], "language"@) == Some(language),
{
    reveal_strlit("translate\nlanguage=");
    reveal_strlit("translate");
    reveal_strlit("language");
    let a = "translate"@;
    let lk = "language"@;
    let ll = lk + seq!['='] + language;
    let rec = translate_fail_record_spec(language);
    assert(rec =~= a + seq!['\n'] + (ll + seq!['\n'] + Seq::<char>::empty()));
    assert(no_newline(a));
    assert forall|k: int| 0 <= k < ll.len() implies ll[k] != '\n' by {
        if k > 8 {
            assert(ll[k] == language[k - 9]);
        }
    }
    lemma_lines_cons(ll, Seq::<char>::empty());
    lemma_lines_cons(a, ll + seq!['\n'] + Seq::<char>::empty());
    assert(lines(Seq::<char>::empty()) =~= Seq::<Seq<char>>::empty());
    assert(strip_cr(a) == a);
    assert(strip_cr(ll) == ll);
    let ls = lines(rec);
    assert(ls =~= seq![a, ll]);
    assert forall|k: int| 0 <= k < 8 implies #[trigger] ll[k] != '=' by {
        assert(ll[k] == lk[k]);
    }
    assert(ll[8] == '=');
    lemma_first_index_at(ll, '=', 8);
    assert(ll.take(8) =~= lk);
    assert(ll.skip(9) =~= language);
    assert(split_once(ll, '=') == Some((lk, language)));
    let rest = ls.drop_first();
    assert(rest =~= seq![ll]);
    assert(rest.drop_last() =~= Seq::<Seq<char>>::empty());
    assert(settings_of(Seq::<Seq<char>>::empty()) =~= Seq::<(Seq<char>, Seq<char>)>::empty());
    assert(settings_of(rest) =~= seq![(lk, language)]);
}

} // verus!
