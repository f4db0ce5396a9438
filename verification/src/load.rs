//! Loading a book page by page from a URL range: the URL syntax, the book name, which pages
//! to fetch, throttling, and the order in which pages are fetched.
use scraper::{CaseSensitivity, Html, Selector};
use vstd::prelude::*;

use crate::section::{decode_entities_spec, section_md, section_md_chars, trimmed_nonempty, trimmed_nonempty_spec};
use crate::text::{
    lines, lines_of, trim, trim_chars,
    append_chars, chars_of, decimal, digit_char, ends_with, ends_with_chars, first_index,
    is_decimal_digit, is_decimal_digit_exec, lemma_trailing_decimal_at, trailing_decimal,
    matches_at, parse_u32, parse_u32_spec,
    push_decimal, replace_all, replace_chars, slice_chars, split, split_chars, starts_with,
    string_of, views,
};

verus! {

// ---------------------------------------------------------------------------
// The page range at the end of a URL
// ---------------------------------------------------------------------------

pub open spec fn strip_one_slash(s: Seq<char>) -> Seq<char> {
    if s.len() > 0 && s.last() == '/' {
        s.drop_last()
    } else {
        s
    }
}

/// The pieces of a URL that ends in `A..B` or `A..=B` (then perhaps one `/`), `A` and `B`
/// being decimal digits of any script: what comes before `A`, the digits of `A`, whether `B`
/// is included, the digits of `B`.
pub open spec fn url_range(url: Seq<char>) -> Option<(Seq<char>, Seq<char>, bool, Seq<char>)> {
    let u = strip_one_slash(url);
    let n2 = trailing_decimal(u);
    let r = u.take(u.len() - n2);
    let incl = ends_with(r, "..="@);
    let r2 = if incl {
        r.take(r.len() - 3)
    } else {
        r.take(r.len() - 2)
    };
    let n1 = trailing_decimal(r2);
    if n2 > 0 && (incl || ends_with(r, ".."@)) && n1 > 0 {
        Some((r2.take(r2.len() - n1), r2.skip(r2.len() - n1), incl, u.skip(u.len() - n2)))
    } else {
        None
    }
}

/// Why a load URL was refused.
pub enum LoadUrlError {
    /// The URL does not end in `A..B` or `A..=B` (a final `/` allowed).
    NoRange,
    /// A number of the range is not a 32-bit number written in ASCII digits: it is too
    /// large, or written with the digits of another script.
    InvalidNumber,
    /// The range holds no page.
    EmptyRange,
}

/// The URL template (the range replaced by `{}`, a final `/` kept), the first and the last
/// page.
pub open spec fn load_url_spec(url: Seq<char>) -> Result<(Seq<char>, u32, u32), LoadUrlError> {
    match url_range(url) {
        None => Err(LoadUrlError::NoRange),
        Some((prefix, a, incl, b)) => match parse_u32_spec(a) {
            None => Err(LoadUrlError::InvalidNumber),
            Some(start) => match parse_u32_spec(b) {
                None => Err(LoadUrlError::InvalidNumber),
                Some(end_raw) => {
                    let end: int = if incl {
                        end_raw as int
                    } else {
                        end_raw - 1
                    };
                    if end < start {
                        Err(LoadUrlError::EmptyRange)
                    } else {
                        Ok((prefix + "{}"@ + url.skip(strip_one_slash(url).len() as int), start, end as u32))
                    }
                },
            },
        },
    }
}

/// An exclusive range ending at 0 (`A..0`): computing its last page would underflow.
pub open spec fn url_range_underflows_spec(url: Seq<char>) -> bool {
    match url_range(url) {
        Some((_, a, incl, b)) => !incl && parse_u32_spec(a) is Some && parse_u32_spec(b) == Some(
            0u32,
        ),
        None => false,
    }
}

/// The start of the decimal digits (of any script) at the end of `v[..end]`.
fn trailing_decimal_start(v: &Vec<char>, end: usize) -> (i: usize)
    requires
        end <= v.len(),
    ensures
        i <= end,
        trailing_decimal(v@.take(end as int)) == end - i,
{
    let mut i = end;
    while i > 0 && is_decimal_digit_exec(v[i - 1])
        invariant
            i <= end <= v.len(),
            forall|k: int| i <= k < end ==> is_decimal_digit(#[trigger] v@[k]),
        decreases i,
    {
        i = i - 1;
    }
    proof {
        let s = v@.take(end as int);
        assert forall|k: int| i <= k < s.len() implies is_decimal_digit(#[trigger] s[k]) by {
            assert(s[k] == v@[k]);
        }
        if i > 0 {
            assert(s[i - 1] == v@[i - 1]);
        }
        lemma_trailing_decimal_at(s, i as int);
    }
    i
}

/// Positions in `v` of the URL range: end of the prefix, end of `A`, start of `B`, end of `B`,
/// and whether `B` is included.
fn find_url_range(v: &Vec<char>) -> (r: Option<(usize, usize, bool, usize, usize)>)
    ensures
        match url_range(v@) {
            None => r is None,
            Some((p, a, incl, b)) => r matches Some(x) && {
                &&& x.0 <= x.1 <= x.3 <= x.4 <= v.len()
                &&& v@.subrange(0, x.0 as int) == p
                &&& v@.subrange(x.0 as int, x.1 as int) == a
                &&& x.2 == incl
                &&& v@.subrange(x.3 as int, x.4 as int) == b
                &&& x.4 == strip_one_slash(v@).len()
            },
        },
{
    proof {
        reveal_strlit("..=");
        reveal_strlit("..");
    }
    let u_len = if v.len() > 0 && v[v.len() - 1] == '/' {
        v.len() - 1
    } else {
        v.len()
    };
    let ghost u = strip_one_slash(v@);
    assert(u =~= v@.take(u_len as int));
    let b_start = trailing_decimal_start(v, u_len);
    let ghost r = u.take(b_start as int);
    assert(r =~= v@.take(b_start as int));
    let rv = slice_chars(v, 0, b_start);
    assert(rv@ =~= r);
    let incl = ends_with_chars(&rv, &chars_of("..="));
    let two = ends_with_chars(&rv, &chars_of(".."));
    if b_start == u_len || !(incl || two) {
        return None;
    }
    let a_end = if incl {
        b_start - 3
    } else {
        b_start - 2
    };
    let ghost r2 = if incl {
        r.take(r.len() - 3)
    } else {
        r.take(r.len() - 2)
    };
    assert(r2 =~= v@.take(a_end as int));
    let a_start = trailing_decimal_start(v, a_end);
    if a_start == a_end {
        return None;
    }
    assert(r2.take(r2.len() - (a_end - a_start)) =~= v@.subrange(0, a_start as int));
    assert(r2.skip(r2.len() - (a_end - a_start)) =~= v@.subrange(a_start as int, a_end as int));
    assert(u.skip(u.len() - (u_len - b_start)) =~= v@.subrange(b_start as int, u_len as int));
    Some((a_start, a_end, incl, b_start, u_len))
}

/// Whether the URL ends in an exclusive range up to 0 (`A..0`), for which the last page
/// cannot be computed.
pub fn url_range_underflows(url: &str) -> (b: bool)
    ensures
        b == url_range_underflows_spec(url@),
{
    let v = chars_of(url);
    match find_url_range(&v) {
        None => false,
        Some((a_start, a_end, incl, b_start, b_end)) => {
            let a = slice_chars(&v, a_start, a_end);
            let b = slice_chars(&v, b_start, b_end);
            !incl && parse_u32(&a).is_some() && parse_u32(&b) == Some(0u32)
        },
    }
}

/// Reads the page range at the end of a load URL: `N..M` (exclusive) or `N..=M` (inclusive),
/// then perhaps one `/`. Gives the URL template with `{}` in place of the range (so that
/// `.../chapter/1..=50/` gives `.../chapter/{}/`), and the first and last page.
pub fn parse_load_url(url: &str) -> (r: Result<(String, u32, u32), LoadUrlError>)
    requires
        !url_range_underflows_spec(url@),
    ensures
        match load_url_spec(url@) {
            Ok((t, s, e)) => r matches Ok(x) && x.0@ == t && x.1 == s && x.2 == e,
            Err(k) => r matches Err(e) && e == k,
        },
{
    let v = chars_of(url);
    let (a_start, a_end, incl, b_start, b_end) = match find_url_range(&v) {
        None => {
            return Err(LoadUrlError::NoRange);
        },
        Some(x) => x,
    };
    let a = slice_chars(&v, a_start, a_end);
    let b = slice_chars(&v, b_start, b_end);
    let start = match parse_u32(&a) {
        None => {
            return Err(LoadUrlError::InvalidNumber);
        },
        Some(n) => n,
    };
    let end_raw = match parse_u32(&b) {
        None => {
            return Err(LoadUrlError::InvalidNumber);
        },
        Some(n) => n,
    };
    let end = if incl {
        end_raw
    } else {
        end_raw - 1
    };
    if end < start {
        return Err(LoadUrlError::EmptyRange);
    }
    let mut t = slice_chars(&v, 0, a_start);
    t.push('{');
    t.push('}');
    if b_end < v.len() {
        t.push('/');
    }
    proof {
        reveal_strlit("{}");
        if b_end < v.len() {
            assert(v@.len() > 0 && v@.last() == '/');
            assert(v@.skip(strip_one_slash(v@).len() as int) =~= seq!['/']);
        } else {
            assert(v@.skip(strip_one_slash(v@).len() as int) =~= Seq::<char>::empty());
        }
    }
    assert(t@ =~= v@.subrange(0, a_start as int) + "{}"@ + v@.skip(strip_one_slash(v@).len() as int));
    Ok((string_of(&t), start, end))
}

/// The URL of one page: every `{}` of the template replaced by the page number.
pub open spec fn page_url_spec(template: Seq<char>, page: u32) -> Seq<char> {
    replace_all(template, "{}"@, decimal(page as nat))
}

pub fn page_url(template: &str, page: u32) -> (u: String)
    ensures
        u@ == page_url_spec(template@, page),
{
    proof {
        reveal_strlit("{}");
    }
    let mut n: Vec<char> = Vec::new();
    push_decimal(&mut n, page as u64);
    assert(n@ =~= decimal(page as nat));
    let v = replace_chars(&chars_of(template), &chars_of("{}"), &n);
    string_of(&v)
}

/// Whether `{}` occurs in `s`.
pub open spec fn has_placeholder(s: Seq<char>) -> bool {
    exists|i: int| 0 <= i < s.len() - 1 && #[trigger] s[i] == '{' && s[i + 1] == '}'
}

proof fn lemma_replace_after(x: Seq<char>, y: Seq<char>, pat: Seq<char>, r: Seq<char>)
    requires
        pat.len() > 0,
        forall|i: int| 0 <= i < x.len() ==> !starts_with(#[trigger] (x + y).skip(i), pat),
    ensures
        replace_all(x + y, pat, r) == x + replace_all(y, pat, r),
    decreases x.len(),
{
    if x.len() == 0 {
        assert(x + y =~= y);
    } else {
        let s = x + y;
        assert(s.skip(0) =~= s);
        let x2 = x.drop_first();
        assert(s.drop_first() =~= x2 + y);
        assert forall|i: int| 0 <= i < x2.len() implies !starts_with(#[trigger] (x2 + y).skip(i), pat) by {
            assert((x2 + y).skip(i) =~= s.skip(i + 1));
        }
        lemma_replace_after(x2, y, pat, r);
        assert(s[0] == x[0]);
        assert(seq![x[0]] + (x2 + replace_all(y, pat, r)) =~= x + replace_all(y, pat, r));
    }
}

/// Each page's URL is the load URL with its range replaced by the page number (a final `/`
/// kept): `.../chapter/1..=50/` gives `.../chapter/7/` for page 7. It holds when no `{}`
/// stands before the range.
pub proof fn lemma_page_url_replaces_range(url: Seq<char>, page: u32)
    requires
        url_range(url) matches Some((prefix, _, _, _)) && !has_placeholder(prefix),
    ensures
        load_url_spec(url) matches Ok((t, _, _)) ==> page_url_spec(t, page) == url_range(url)->Some_0.0
            + decimal(page as nat) + url.skip(strip_one_slash(url).len() as int),
{
    reveal_strlit("{}");
    let prefix = url_range(url)->Some_0.0;
    let slash = url.skip(strip_one_slash(url).len() as int);
    let brace = seq!['{', '}'];
    assert("{}"@ =~= brace);
    let d = decimal(page as nat);
    let t = prefix + brace + slash;
    assert(slash.len() <= 1) by {
        if url.len() > 0 && url.last() == '/' {
            assert(slash =~= seq!['/']);
        } else {
            assert(slash =~= Seq::<char>::empty());
        }
    }
    assert forall|i: int| 0 <= i < prefix.len() implies !starts_with(#[trigger] (prefix + (brace + slash)).skip(i), brace) by {
        let w = (prefix + (brace + slash)).skip(i);
        if starts_with(w, brace) {
            assert(w.take(2)[0] == w[0]);
            assert(w.take(2)[1] == w[1]);
            assert(w[0] == prefix[i]);
            if i + 1 < prefix.len() {
                assert(w[1] == prefix[i + 1]);
            } else {
                assert(w[1] == '{');
            }
        }
    }
    lemma_replace_after(prefix, brace + slash, brace, d);
    assert((brace + slash).take(2) =~= brace);
    assert((brace + slash).skip(2) =~= slash);
    assert(replace_all(Seq::<char>::empty(), brace, d) == Seq::<char>::empty());
    if slash.len() == 1 {
        assert(!starts_with(slash, brace));
        assert(slash.drop_first() =~= Seq::<char>::empty());
        assert(replace_all(slash, brace, d) =~= seq![slash[0]] + Seq::<char>::empty());
        assert(replace_all(slash, brace, d) =~= slash);
    } else {
        assert(slash =~= Seq::<char>::empty());
    }
    assert(starts_with(brace + slash, brace));
    assert(replace_all(brace + slash, brace, d) == d + replace_all(slash, brace, d));
    assert(prefix + brace + slash =~= prefix + (brace + slash));
    assert(replace_all(t, brace, d) =~= prefix + d + slash);
}

// ---------------------------------------------------------------------------
// The name of a book loaded from a URL
// ---------------------------------------------------------------------------

/// The part of `s` before its first `c`.
pub open spec fn before(s: Seq<char>, c: char) -> Seq<char> {
    s.take(first_index(s, c))
}

pub open spec fn strip_scheme(s: Seq<char>) -> Seq<char> {
    if starts_with(s, "https://"@) {
        s.skip(8)
    } else if starts_with(s, "http://"@) {
        s.skip(7)
    } else {
        s
    }
}

/// The pieces joined with `sep` between them.
pub open spec fn join_with(ps: Seq<Seq<char>>, sep: char) -> Seq<char>
    decreases ps.len(),
{
    if ps.len() == 0 {
        seq![]
    } else if ps.len() == 1 {
        ps[0]
    } else {
        join_with(ps.drop_last(), sep) + seq![sep] + ps.last()
    }
}

/// The pieces that are not empty, in order.
pub open spec fn nonempty_pieces(ps: Seq<Seq<char>>) -> Seq<Seq<char>>
    decreases ps.len(),
{
    if ps.len() == 0 {
        seq![]
    } else if ps.last().len() > 0 {
        nonempty_pieces(ps.drop_last()).push(ps.last())
    } else {
        nonempty_pieces(ps.drop_last())
    }
}

/// The name a book loaded from a URL gets: the URL without its page range, scheme, fragment
/// and query, its path segments (after the host) joined with `_`; `book` when there is none.
pub open spec fn book_name_spec(url: Seq<char>) -> Seq<char> {
    let stripped = match url_range(url) {
        Some((p, _, _, _)) => p,
        None => url,
    };
    let s = before(before(strip_scheme(stripped), '#'), '?');
    let parts = nonempty_pieces(split(s, '/').drop_first());
    if parts.len() == 0 {
        "book"@
    } else {
        join_with(parts, '_')
    }
}

proof fn lemma_nonempty_pieces(ps: Seq<Seq<char>>)
    ensures
        forall|i: int| 0 <= i < nonempty_pieces(ps).len() ==> #[trigger] nonempty_pieces(ps)[i].len() > 0,
    decreases ps.len(),
{
    if ps.len() > 0 {
        let init = nonempty_pieces(ps.drop_last());
        lemma_nonempty_pieces(ps.drop_last());
        if ps.last().len() > 0 {
            assert forall|i: int| 0 <= i < init.push(ps.last()).len() implies #[trigger] init.push(
                ps.last(),
            )[i].len() > 0 by {
                if i < init.len() {
                    assert(init.push(ps.last())[i] == init[i]);
                }
            }
        }
    }
}

proof fn lemma_join_nonempty(ps: Seq<Seq<char>>, sep: char)
    requires
        ps.len() > 0,
        ps[0].len() > 0,
    ensures
        join_with(ps, sep).len() > 0,
    decreases ps.len(),
{
    if ps.len() > 1 {
        lemma_join_nonempty(ps.drop_last(), sep);
    }
}

/// Every book loaded from a URL gets a name that is not empty, so that it has a directory
/// of its own.
pub proof fn lemma_book_name_nonempty(url: Seq<char>)
    ensures
        book_name_spec(url).len() > 0,
{
    reveal_strlit("book");
    let stripped = match url_range(url) {
        Some((p, _, _, _)) => p,
        None => url,
    };
    let s = before(before(strip_scheme(stripped), '#'), '?');
    let parts = nonempty_pieces(split(s, '/').drop_first());
    lemma_nonempty_pieces(split(s, '/').drop_first());
    if parts.len() > 0 {
        assert(parts[0].len() > 0);
        lemma_join_nonempty(parts, '_');
    }
}

fn before_chars(v: &Vec<char>, c: char) -> (r: Vec<char>)
    ensures
        r@ == before(v@, c),
{
    assert(v@.skip(0) =~= v@);
    let i = crate::text::find_char_from(v, c, 0);
    let r = slice_chars(v, 0, i);
    assert(r@ =~= v@.take(i as int));
    r
}

/// Derives a book's name from its load URL.
pub fn book_name_from_url(url: &str) -> (name: String)
    ensures
        name@ == book_name_spec(url@),
{
    proof {
        reveal_strlit("https://");
        reveal_strlit("http://");
        reveal_strlit("book");
    }
    let v = chars_of(url);
    let stripped = match find_url_range(&v) {
        Some((a_start, _, _, _, _)) => slice_chars(&v, 0, a_start),
        None => v,
    };
    let https = chars_of("https://");
    let http = chars_of("http://");
    assert(stripped@.skip(0) =~= stripped@);
    let s = if matches_at(&stripped, 0, &https) {
        slice_chars(&stripped, 8, stripped.len())
    } else if matches_at(&stripped, 0, &http) {
        slice_chars(&stripped, 7, stripped.len())
    } else {
        stripped
    };
    assert(s@ =~= strip_scheme(
        match url_range(url@) {
            Some((p, _, _, _)) => p,
            None => url@,
        },
    ));
    let s = before_chars(&before_chars(&s, '#'), '?');
    let pieces = split_chars(&s, '/');
    let ghost all = views(pieces@).drop_first();
    let mut parts: Vec<Vec<char>> = Vec::new();
    let mut i: usize = 1;
    assert(all.take(0) =~= Seq::<Seq<char>>::empty());
    while i < pieces.len()
        invariant
            1 <= i <= pieces.len(),
            all == views(pieces@).drop_first(),
            views(parts@) == nonempty_pieces(all.take(i - 1)),
        decreases pieces.len() - i,
    {
        assert(all.take(i as int).drop_last() =~= all.take(i - 1));
        assert(all.take(i as int).last() == pieces@[i as int]@);
        if pieces[i].len() > 0 {
            let p = slice_chars(&pieces[i], 0, pieces[i].len());
            assert(p@ =~= pieces@[i as int]@);
            proof {
                crate::text::lemma_views_push(parts@, p);
            }
            parts.push(p);
        }
        i = i + 1;
    }
    assert(all.take(pieces.len() - 1) =~= all);
    if parts.len() == 0 {
        return string_of(&chars_of("book"));
    }
    let mut out = slice_chars(&parts[0], 0, parts[0].len());
    let mut j: usize = 1;
    assert(views(parts@).take(1) =~= seq![parts@[0]@]);
    assert(out@ =~= join_with(views(parts@).take(1), '_'));
    while j < parts.len()
        invariant
            1 <= j <= parts.len(),
            out@ == join_with(views(parts@).take(j as int), '_'),
        decreases parts.len() - j,
    {
        out.push('_');
        append_chars(&mut out, &parts[j]);
        assert(views(parts@).take(j + 1).drop_last() =~= views(parts@).take(j as int));
        assert(views(parts@).take(j + 1).last() == parts@[j as int]@);
        j = j + 1;
    }
    assert(views(parts@).take(parts.len() as int) =~= views(parts@));
    string_of(&out)
}


// ---------------------------------------------------------------------------
// Which pages to fetch
// ---------------------------------------------------------------------------

fn contains_u32(v: &[u32], x: u32) -> (b: bool)
    ensures
        b == v@.contains(x),
{
    let mut i: usize = 0;
    while i < v.len()
        invariant
            i <= v.len(),
            forall|k: int| 0 <= k < i ==> v@[k] != x,
        decreases v.len() - i,
    {
        if v[i] == x {
            assert(v@[i as int] == x);
            return true;
        }
        i = i + 1;
    }
    false
}

/// Whether `g` is the first page of `start..=end` missing from the pages present.
pub open spec fn is_first_gap(start: u32, end: u32, present: Seq<u32>, g: u32) -> bool {
    &&& start <= g <= end
    &&& !present.contains(g)
    &&& forall|p: u32| start <= p < g ==> present.contains(p)
}

/// Whether every page of `start..=end` is present.
pub open spec fn no_gap(start: u32, end: u32, present: Seq<u32>) -> bool {
    forall|p: u32| start <= p <= end ==> present.contains(p)
}

/// The first page of `start..=end` that is not among the pages present; every page after it
/// is to be discarded so that the loaded pages stay contiguous.
pub fn first_gap(start: u32, end: u32, present: &[u32]) -> (r: Option<u32>)
    ensures
        match r {
            Some(g) => is_first_gap(start, end, present@, g),
            None => no_gap(start, end, present@),
        },
{
    if start > end {
        return None;
    }
    let mut page = start;
    loop
        invariant
            start <= page <= end,
            forall|p: u32| start <= p < page ==> present@.contains(p),
        decreases end - page,
    {
        if !contains_u32(present, page) {
            return Some(page);
        }
        if page == end {
            return None;
        }
        page = page + 1;
    }
}

/// Discarding the pages after a gap keeps the gap: once the pages past the first missing
/// one are removed, whichever of the earlier ones stay, the first page missing is the same,
/// so making a directory contiguous a second time finds the same gap and removes nothing
/// more.
pub proof fn lemma_gap_stays(start: u32, end: u32, present: Seq<u32>, kept: Seq<u32>, g: u32)
    requires
        is_first_gap(start, end, present, g),
        forall|p: u32| #[trigger] kept.contains(p) ==> present.contains(p),
        forall|p: u32| start <= p < g && present.contains(p) ==> #[trigger] kept.contains(p),
    ensures
        is_first_gap(start, end, kept, g),
{
}

/// The pages present after a gap `g`, up to `end`: those to discard.
pub open spec fn cut_after(present: Seq<u32>, g: u32, end: u32) -> Seq<u32> {
    present.filter(|p: u32| g < p && p <= end)
}

/// A page is kept by a filter exactly when it is there and passes it.
proof fn lemma_filter_member(s: Seq<u32>, pred: spec_fn(u32) -> bool, x: u32)
    ensures
        s.filter(pred).contains(x) <==> s.contains(x) && pred(x),
    decreases s.len(),
{
    reveal(Seq::filter);
    if s.len() > 0 {
        let init = s.drop_last();
        lemma_filter_member(init, pred, x);
        let f = s.filter(pred);
        let fi = init.filter(pred);
        if pred(s.last()) {
            assert(f == fi.push(s.last()));
        } else {
            assert(f == fi);
        }
        if s.contains(x) && !init.contains(x) {
            assert(x == s.last()) by {
                let i = choose|i: int| 0 <= i < s.len() && s[i] == x;
                if i < s.len() - 1 {
                    assert(init[i] == x);
                }
            }
        }
        if init.contains(x) {
            let i = choose|i: int| 0 <= i < init.len() && init[i] == x;
            assert(s[i] == x);
        }
        if f.contains(x) && !fi.contains(x) {
            let i = choose|i: int| 0 <= i < f.len() && f[i] == x;
            assert(pred(s.last()) && i == f.len() - 1);
            assert(s[s.len() - 1] == x);
        }
        if fi.contains(x) {
            let i = choose|i: int| 0 <= i < fi.len() && fi[i] == x;
            assert(f[i] == x);
        }
        if x == s.last() && pred(x) {
            assert(f[f.len() - 1] == x);
        }
    }
}

/// Making the pages contiguous: the first gap, if any, and the pages present after it (up
/// to `end`), which are discarded.
pub fn contiguous_cut(start: u32, end: u32, present: &[u32]) -> (r: (Option<u32>, Vec<u32>))
    ensures
        match r.0 {
            Some(g) => is_first_gap(start, end, present@, g) && r.1@ == cut_after(present@, g, end),
            None => no_gap(start, end, present@) && r.1@.len() == 0,
        },
{
    let gap = first_gap(start, end, present);
    let g = match gap {
        None => {
            return (None, Vec::new());
        },
        Some(g) => g,
    };
    let ghost pred = |p: u32| g < p && p <= end;
    let mut out: Vec<u32> = Vec::new();
    let mut i: usize = 0;
    while i < present.len()
        invariant
            i <= present.len(),
            pred == (|p: u32| g < p && p <= end),
            out@ == present@.take(i as int).filter(pred),
        decreases present.len() - i,
    {
        reveal(Seq::filter);
        assert(present@.take(i + 1).drop_last() =~= present@.take(i as int));
        assert(present@.take(i + 1).last() == present@[i as int]);
        let p = present[i];
        if g < p && p <= end {
            out.push(p);
        }
        i = i + 1;
    }
    assert(present@.take(present.len() as int) =~= present@);
    (Some(g), out)
}

/// Discarding the pages after a gap leaves nothing to discard: once the pages present
/// after the first gap are removed, the first gap is the same and no page remains after it,
/// so making the pages contiguous a second time changes nothing.
pub proof fn lemma_cut_again(start: u32, end: u32, present: Seq<u32>, g: u32)
    requires
        is_first_gap(start, end, present, g),
    ensures
        ({
            let kept = present.filter(|p: u32| !(g < p && p <= end));
            &&& is_first_gap(start, end, kept, g)
            &&& cut_after(kept, g, end).len() == 0
        }),
{
    let pred = |p: u32| !(g < p && p <= end);
    let cut = |p: u32| g < p && p <= end;
    let kept = present.filter(pred);
    assert forall|p: u32| #[trigger] kept.contains(p) <==> present.contains(p) && pred(p) by {
        lemma_filter_member(present, pred, p);
    }
    lemma_gap_stays(start, end, present, kept, g);
    let c = cut_after(kept, g, end);
    if c.len() > 0 {
        let x = c[0];
        lemma_filter_member(kept, cut, x);
        assert(c.contains(x));
    }
}

/// The pages `start..=end` in order.
pub open spec fn page_span(start: u32, end: u32) -> Seq<u32> {
    Seq::new((end - start + 1) as nat, |i: int| (start + i) as u32)
}

/// The pages of `start..=end` to fetch: all of them when overwriting, else those not present.
pub open spec fn pages_to_load_spec(start: u32, end: u32, present: Seq<u32>, force: bool) -> Seq<
    u32,
> {
    page_span(start, end).filter(|p: u32| force || !present.contains(p))
}

/// The pages of `start..=end` to fetch, in order, and how many present pages are skipped.
pub fn pages_to_load(start: u32, end: u32, present: &[u32], force: bool) -> (r: (Vec<u32>, u32))
    requires
        start <= end,
        end - start < u32::MAX,
    ensures
        r.0@ == pages_to_load_spec(start, end, present@, force),
        r.1 == (end - start + 1) - r.0@.len(),
{
    let ghost pred = |p: u32| force || !present@.contains(p);
    let mut v: Vec<u32> = Vec::new();
    let mut skipped: u32 = 0;
    let mut page = start;
    let ghost span = page_span(start, end);
    loop
        invariant
            start <= page <= end,
            end - start < u32::MAX,
            span == page_span(start, end),
            pred == (|p: u32| force || !present@.contains(p)),
            v@ == span.take(page - start).filter(pred),
            skipped + v@.len() == page - start,
        decreases end - page,
    {
        reveal(Seq::filter);
        let ghost k = page - start;
        assert(span.take(k + 1).drop_last() =~= span.take(k));
        assert(span.take(k + 1).last() == page);
        if force || !contains_u32(present, page) {
            v.push(page);
        } else {
            skipped = skipped + 1;
        }
        if page == end {
            assert(span.take(k + 1) =~= span);
            return (v, skipped);
        }
        page = page + 1;
    }
}

/// The sections still to process, in order: all of them when overwriting, else those whose
/// output is not there yet; and how many were skipped.
pub fn pending_sections(nums: &Vec<u32>, done: &[u32], force: bool) -> (r: (Vec<u32>, usize))
    ensures
        r.0@ == nums@.filter(|p: u32| force || !done@.contains(p)),
        r.1 == nums@.len() - r.0@.len(),
{
    let ghost pred = |p: u32| force || !done@.contains(p);
    let mut v: Vec<u32> = Vec::new();
    let mut skipped: usize = 0;
    let mut i: usize = 0;
    while i < nums.len()
        invariant
            i <= nums.len(),
            pred == (|p: u32| force || !done@.contains(p)),
            v@ == nums@.take(i as int).filter(pred),
            skipped + v@.len() == i,
        decreases nums.len() - i,
    {
        reveal(Seq::filter);
        assert(nums@.take(i + 1).drop_last() =~= nums@.take(i as int));
        assert(nums@.take(i + 1).last() == nums@[i as int]);
        if force || !contains_u32(done, nums[i]) {
            v.push(nums[i]);
        } else {
            skipped = skipped + 1;
        }
        i = i + 1;
    }
    assert(nums@.take(nums.len() as int) =~= nums@);
    (v, skipped)
}

// ---------------------------------------------------------------------------
// Throttling when the server answers with Cloudflare's 503
// ---------------------------------------------------------------------------

/// Once a Cloudflare 503 is seen, the parallel downloads are clamped down to this.
pub const CF_FALLBACK_PARALLEL: usize = 4;

/// ... and the wait between chunks is clamped up to at least this many seconds.
pub const CF_FALLBACK_TIMEOUT_SECS: u64 = 1;

/// The user's parallelism and wait between chunks, and the clamps that throttling sets.
pub struct Throttle {
    pub user_parallel: usize,
    pub user_timeout_secs: u64,
    /// Clamps the parallelism down; `usize::MAX` when unset.
    pub force_max_parallel: usize,
    /// Clamps the wait up; `0` when unset.
    pub force_min_timeout_secs: u64,
}

impl Throttle {
    /// Either not tripped, or tripped with both clamps in force.
    pub open spec fn wf(&self) -> bool {
        self.force_max_parallel == usize::MAX || (self.force_max_parallel == CF_FALLBACK_PARALLEL
            && self.force_min_timeout_secs >= CF_FALLBACK_TIMEOUT_SECS)
    }

    pub open spec fn tripped(&self) -> bool {
        self.force_max_parallel != usize::MAX
    }

    pub open spec fn parallel_spec(&self) -> usize {
        let m = if self.user_parallel <= self.force_max_parallel {
            self.user_parallel
        } else {
            self.force_max_parallel
        };
        if m >= 1 {
            m
        } else {
            1
        }
    }

    pub open spec fn timeout_spec(&self) -> u64 {
        if self.user_timeout_secs >= self.force_min_timeout_secs {
            self.user_timeout_secs
        } else {
            self.force_min_timeout_secs
        }
    }

    pub fn new(parallel: usize, timeout_secs: u64) -> (t: Self)
        ensures
            t.wf(),
            !t.tripped(),
            t.user_parallel == parallel,
            t.user_timeout_secs == timeout_secs,
            t.force_min_timeout_secs == 0,
    {
        Throttle {
            user_parallel: parallel,
            user_timeout_secs: timeout_secs,
            force_max_parallel: usize::MAX,
            force_min_timeout_secs: 0,
        }
    }

    /// How many pages to fetch at once: the user's number, clamped down, at least one.
    pub fn effective_parallel(&self) -> (n: usize)
        ensures
            n == self.parallel_spec(),
    {
        let m = if self.user_parallel <= self.force_max_parallel {
            self.user_parallel
        } else {
            self.force_max_parallel
        };
        if m >= 1 {
            m
        } else {
            1
        }
    }

    /// How long to wait between chunks: the user's wait, clamped up.
    pub fn effective_timeout_secs(&self) -> (s: u64)
        ensures
            s == self.timeout_spec(),
    {
        if self.user_timeout_secs >= self.force_min_timeout_secs {
            self.user_timeout_secs
        } else {
            self.force_min_timeout_secs
        }
    }

    /// The state after a Cloudflare 503: the parallelism clamped to `CF_FALLBACK_PARALLEL`;
    /// the first time (the clamp was not yet in force), the wait raised to at least
    /// `CF_FALLBACK_TIMEOUT_SECS`.
    pub open spec fn tripped_spec(self) -> Throttle {
        let first = self.force_max_parallel > CF_FALLBACK_PARALLEL;
        Throttle {
            force_max_parallel: CF_FALLBACK_PARALLEL,
            force_min_timeout_secs: if first && self.force_min_timeout_secs < CF_FALLBACK_TIMEOUT_SECS {
                CF_FALLBACK_TIMEOUT_SECS
            } else {
                self.force_min_timeout_secs
            },
            ..self
        }
    }

    /// Records a Cloudflare 503: clamps the parallelism, and on the first time also the wait.
    /// Returns whether this call was the first (the one to report).
    pub fn trip_cloudflare_throttle(&mut self) -> (first: bool)
        ensures
            first == (old(self).force_max_parallel > CF_FALLBACK_PARALLEL),
            *final(self) == old(self).tripped_spec(),
    {
        let prev = self.force_max_parallel;
        self.force_max_parallel = CF_FALLBACK_PARALLEL;
        if prev > CF_FALLBACK_PARALLEL {
            if self.force_min_timeout_secs < CF_FALLBACK_TIMEOUT_SECS {
                self.force_min_timeout_secs = CF_FALLBACK_TIMEOUT_SECS;
            }
            true
        } else {
            false
        }
    }
}

/// Throttling keeps its invariant, and once tripped, at most `CF_FALLBACK_PARALLEL` pages
/// are fetched at once, chunks are at least `CF_FALLBACK_TIMEOUT_SECS` apart, and the wait
/// never shrinks.
pub proof fn lemma_throttle_clamps(t: Throttle)
    requires
        t.wf(),
    ensures
        t.tripped_spec().wf(),
        t.tripped_spec().tripped(),
        1 <= t.tripped_spec().parallel_spec() <= CF_FALLBACK_PARALLEL,
        t.tripped_spec().timeout_spec() >= CF_FALLBACK_TIMEOUT_SECS,
        t.tripped_spec().timeout_spec() >= t.timeout_spec(),
{
}

/// A Cloudflare 503 after the first changes nothing, and is not reported again
/// (`trip_cloudflare_throttle` is idempotent).
pub proof fn lemma_throttle_trip_idempotent(t: Throttle)
    requires
        t.wf(),
    ensures
        !(t.tripped_spec().force_max_parallel > CF_FALLBACK_PARALLEL),
        t.tripped_spec().tripped_spec() == t.tripped_spec(),
{
}

// ---------------------------------------------------------------------------
// The order in which pages are fetched
// ---------------------------------------------------------------------------

/// Pages waiting to be fetched, in the order they will be.
pub struct PageQueue {
    pub pages: Vec<u32>,
}

impl PageQueue {
    pub fn new(pages: Vec<u32>) -> (q: Self)
        ensures
            q.pages@ == pages@,
    {
        PageQueue { pages }
    }

    pub fn is_empty(&self) -> (b: bool)
        ensures
            b == (self.pages@.len() == 0),
    {
        self.pages.len() == 0
    }

    /// Takes the next chunk: up to `par` pages from the front.
    pub fn next_chunk(&mut self, par: usize) -> (chunk: Vec<u32>)
        ensures
            chunk@ == chunk_front(old(self).pages@, par as int),
            final(self).pages@ == chunk_rest(old(self).pages@, par as int),
    {
        let take = if par <= self.pages.len() {
            par
        } else {
            self.pages.len()
        };
        let mut chunk: Vec<u32> = Vec::new();
        let mut rest: Vec<u32> = Vec::new();
        let mut i: usize = 0;
        while i < self.pages.len()
            invariant
                i <= self.pages.len(),
                take <= self.pages.len(),
                i <= take ==> chunk@ == self.pages@.take(i as int) && rest@.len() == 0,
                i > take ==> chunk@ == self.pages@.take(take as int) && rest@
                    == self.pages@.subrange(take as int, i as int),
            decreases self.pages.len() - i,
        {
            if i < take {
                chunk.push(self.pages[i]);
                assert(self.pages@.take(i + 1) =~= self.pages@.take(i as int).push(self.pages@[i as int]));
            } else {
                rest.push(self.pages[i]);
                assert(self.pages@.subrange(take as int, i + 1) =~= self.pages@.subrange(take as int, i as int).push(self.pages@[i as int]));
            }
            i = i + 1;
        }
        assert(chunk@ =~= chunk_front(self.pages@, par as int));
        assert(rest@ =~= chunk_rest(self.pages@, par as int));
        self.pages = rest;
        chunk
    }

    /// Puts throttled pages back at the front, in their order, to be fetched first.
    pub fn requeue(&mut self, throttled: Vec<u32>)
        ensures
            final(self).pages@ == throttled@ + old(self).pages@,
    {
        let mut v = throttled;
        let mut i: usize = 0;
        let ghost front = v@;
        while i < self.pages.len()
            invariant
                i <= self.pages.len(),
                v@ == front + self.pages@.take(i as int),
            decreases self.pages.len() - i,
        {
            v.push(self.pages[i]);
            assert(self.pages@.take(i + 1) =~= self.pages@.take(i as int).push(self.pages@[i as int]));
            i = i + 1;
        }
        assert(self.pages@.take(self.pages.len() as int) =~= self.pages@);
        self.pages = v;
    }
}

/// The pages of the next chunk: up to `par` from the front.
pub open spec fn chunk_front(pages: Seq<u32>, par: int) -> Seq<u32> {
    if par <= pages.len() {
        pages.take(par)
    } else {
        pages
    }
}

/// The pages left after the next chunk.
pub open spec fn chunk_rest(pages: Seq<u32>, par: int) -> Seq<u32> {
    if par <= pages.len() {
        pages.skip(par)
    } else {
        seq![]
    }
}

/// Taking a chunk (`next_chunk`) and putting all of it back (`requeue`) leaves the queue
/// as it was: a throttled chunk is fetched again, first, and in the same order.
pub proof fn lemma_requeue_restores(pages: Seq<u32>, par: usize)
    ensures
        chunk_front(pages, par as int) + chunk_rest(pages, par as int) == pages,
{
    assert(chunk_front(pages, par as int) + chunk_rest(pages, par as int) =~= pages);
}

// ---------------------------------------------------------------------------
// Formatting the content of a page
// ---------------------------------------------------------------------------

/// What a content element of a page is, as far as formatting goes.
pub enum BlockKind {
    Paragraph,
    /// A heading `h1` to `h6`, with its level.
    Heading(u8),
    /// A `div` with the class `subtitle`.
    Subtitle,
    Other,
}

/// The kind of an element from its tag name and whether it has the `subtitle` class.
pub open spec fn block_kind_spec(tag: Seq<char>, subtitle: bool) -> BlockKind {
    if tag == "p"@ {
        BlockKind::Paragraph
    } else if tag.len() == 2 && tag[0] == 'h' && '1' <= tag[1] && tag[1] <= '6' {
        BlockKind::Heading(((tag[1] as u32) - ('0' as u32)) as u8)
    } else if tag == "div"@ && subtitle {
        BlockKind::Subtitle
    } else {
        BlockKind::Other
    }
}

pub fn block_kind(tag: &str, subtitle: bool) -> (k: BlockKind)
    ensures
        k == block_kind_spec(tag@, subtitle),
{
    proof {
        reveal_strlit("p");
        reveal_strlit("div");
    }
    let t = chars_of(tag);
    if t.len() == 1 && t[0] == 'p' {
        assert(t@ =~= "p"@);
        return BlockKind::Paragraph;
    }
    assert(t@ != "p"@ ==> !(t.len() == 1 && t@[0] == 'p'));
    if t.len() == 2 && t[0] == 'h' && '1' <= t[1] && t[1] <= '6' {
        let level = (t[1] as u32 - '0' as u32) as u8;
        return BlockKind::Heading(level);
    }
    if subtitle && t.len() == 3 && t[0] == 'd' && t[1] == 'i' && t[2] == 'v' {
        assert(t@ =~= "div"@);
        return BlockKind::Subtitle;
    }
    BlockKind::Other
}

/// A content block as markdown, from its kind and its text (already joined and trimmed):
/// nothing for empty text or for other elements, the text for a paragraph, `#`s for a
/// heading, and `#### * * *` for a `* * *` subtitle.
pub open spec fn format_block_spec(kind: BlockKind, text: Seq<char>) -> Option<Seq<char>> {
    if text.len() == 0 {
        None
    } else {
        match kind {
            BlockKind::Paragraph => Some(text),
            BlockKind::Heading(n) => Some(Seq::new(n as nat, |i: int| '#') + seq![' '] + text),
            BlockKind::Subtitle => if text == "* * *"@ {
                Some("#### * * *"@)
            } else {
                None
            },
            BlockKind::Other => None,
        }
    }
}

pub fn format_block(kind: &BlockKind, text: &str) -> (r: Option<String>)
    requires
        kind matches BlockKind::Heading(n) ==> n <= 6,
    ensures
        match format_block_spec(*kind, text@) {
            None => r is None,
            Some(b) => r matches Some(s) && s@ == b,
        },
{
    proof {
        reveal_strlit("* * *");
        reveal_strlit("#### * * *");
    }
    let t = chars_of(text);
    if t.len() == 0 {
        return None;
    }
    match kind {
        BlockKind::Paragraph => Some(string_of(&t)),
        BlockKind::Heading(n) => {
            let mut out: Vec<char> = Vec::new();
            let mut i: u8 = 0;
            while i < *n
                invariant
                    i <= *n,
                    out@ == Seq::new(i as nat, |j: int| '#'),
                decreases *n - i,
            {
                out.push('#');
                assert(out@ =~= Seq::new((i + 1) as nat, |j: int| '#'));
                i = i + 1;
            }
            out.push(' ');
            append_chars(&mut out, &t);
            Some(string_of(&out))
        },
        BlockKind::Subtitle => {
            let star = chars_of("* * *");
            let same = t.len() == star.len() && matches_at(&t, 0, &star);
            assert(t@.skip(0) =~= t@);
            if same {
                assert(t@.take(star@.len() as int) =~= t@);
                Some(string_of(&chars_of("#### * * *")))
            } else {
                assert(t@ != star@ || !same);
                None
            }
        },
        BlockKind::Other => None,
    }
}


/// One content element of a page: its tag name, its text (the text nodes joined), and whether
/// it carries the class `subtitle`.
pub struct PageElement {
    pub tag: String,
    pub text: String,
    pub subtitle: bool,
}

/// What is read of a content element: its tag name, its text, and whether it carries the
/// class `subtitle`.
pub open spec fn element_views(es: Seq<PageElement>) -> Seq<(Seq<char>, Seq<char>, bool)> {
    es.map_values(|e: PageElement| (e.tag@, e.text@, e.subtitle))
}

/// The markdown blocks of a page's content elements, in order.
pub open spec fn content_blocks_spec(es: Seq<(Seq<char>, Seq<char>, bool)>) -> Seq<Seq<char>>
    decreases es.len(),
{
    if es.len() == 0 {
        seq![]
    } else {
        let rest = content_blocks_spec(es.drop_last());
        let e = es.last();
        match format_block_spec(block_kind_spec(e.0, e.2), trim(e.1)) {
            Some(b) => rest.push(b),
            None => rest,
        }
    }
}

/// Every heading level makes its block: an element `h1` to `h6` with text becomes as many
/// `#` as its level, a space, and its text trimmed, whatever its classes.
pub proof fn lemma_heading_block(level: nat, text: Seq<char>, subtitle: bool)
    requires
        1 <= level <= 6,
        trim(text).len() > 0,
    ensures
        content_blocks_spec(seq![(seq!['h', digit_char(level)], text, subtitle)]) == seq![
            Seq::new(level, |i: int| '#') + seq![' '] + trim(text),
        ],
{
    reveal_strlit("p");
    reveal_strlit("div");
    let tag = seq!['h', digit_char(level)];
    let c = digit_char(level);
    assert(c as nat == 48 + level);
    assert('1' <= c && c <= '6');
    assert(tag != "p"@) by {
        assert("p"@.len() == 1);
    }
    assert(((c as u32) - ('0' as u32)) as u8 == level);
    let es = seq![(tag, text, subtitle)];
    assert(tag.len() == 2 && tag[0] == 'h' && tag[1] == c);
    assert(block_kind_spec(tag, subtitle) == BlockKind::Heading(level as u8));
    let b = Seq::new(level, |i: int| '#') + seq![' '] + trim(text);
    assert(format_block_spec(BlockKind::Heading(level as u8), trim(text)) == Some(b));
    assert(es.drop_last() =~= Seq::<(Seq<char>, Seq<char>, bool)>::empty());
    assert(es.last() == (tag, text, subtitle));
    assert(content_blocks_spec(es.drop_last()) == Seq::<Seq<char>>::empty());
    assert(content_blocks_spec(es) =~= seq![b]);
}

pub open spec fn string_views(v: Seq<String>) -> Seq<Seq<char>> {
    v.map_values(|s: String| s@)
}

/// The markdown blocks of a page's content elements: paragraphs, headings and `* * *`
/// subtitles, with blank and other elements left out.
pub fn content_blocks(elements: &Vec<PageElement>) -> (r: Vec<String>)
    ensures
        string_views(r@) == content_blocks_spec(element_views(elements@)),
{
    let mut r: Vec<String> = Vec::new();
    let mut i: usize = 0;
    while i < elements.len()
        invariant
            i <= elements.len(),
            string_views(r@) == content_blocks_spec(element_views(elements@).take(i as int)),
        decreases elements.len() - i,
    {
        let e = &elements[i];
        let kind = block_kind(e.tag.as_str(), e.subtitle);
        let text = string_of(&trim_chars(&chars_of(e.text.as_str())));
        assert(element_views(elements@).take(i + 1).drop_last() =~= element_views(elements@).take(i as int));
        assert(element_views(elements@).take(i + 1).last() == (e.tag@, e.text@, e.subtitle));
        match format_block(&kind, text.as_str()) {
            Some(b) => {
                r.push(b);
                assert(string_views(r@) =~= content_blocks_spec(element_views(elements@).take(i as int)).push(b@));
            },
            None => {},
        }
        i = i + 1;
    }
    assert(element_views(elements@).take(elements.len() as int) =~= element_views(elements@));
    r
}

/// The pieces joined with `sep` between them.
pub open spec fn join_by(ps: Seq<Seq<char>>, sep: Seq<char>) -> Seq<char>
    decreases ps.len(),
{
    if ps.len() == 0 {
        seq![]
    } else if ps.len() == 1 {
        ps[0]
    } else {
        join_by(ps.drop_last(), sep) + sep + ps.last()
    }
}

/// The markdown of a loaded page: its blocks joined by blank lines, entities decoded, each
/// line a paragraph, without a title.
pub open spec fn page_markdown_spec(blocks: Seq<Seq<char>>) -> Seq<char> {
    section_md(None, lines(decode_entities_spec(join_by(blocks, "\n\n"@))))
}

pub fn page_markdown(blocks: &Vec<String>) -> (md: String)
    ensures
        md@ == page_markdown_spec(string_views(blocks@)),
{
    proof {
        reveal_strlit("\n\n");
    }
    let mut text: Vec<char> = Vec::new();
    let mut i: usize = 0;
    while i < blocks.len()
        invariant
            i <= blocks.len(),
            text@ == join_by(string_views(blocks@).take(i as int), "\n\n"@),
            "\n\n"@ == seq!['\n', '\n'],
        decreases blocks.len() - i,
    {
        let ghost before = text@;
        if i > 0 {
            text.push('\n');
            text.push('\n');
        }
        append_chars(&mut text, &chars_of(blocks[i].as_str()));
        if i > 0 {
            assert(text@ =~= before + "\n\n"@ + blocks@[i as int]@);
        }
        assert(string_views(blocks@).take(i + 1).drop_last() =~= string_views(blocks@).take(i as int));
        assert(string_views(blocks@).take(i + 1).last() == blocks@[i as int]@);
        if i == 0 {
            assert(text@ =~= join_by(string_views(blocks@).take(1), "\n\n"@));
        }
        i = i + 1;
    }
    assert(string_views(blocks@).take(blocks.len() as int) =~= string_views(blocks@));
    let decoded = crate::section::decode_entities(string_of(&text).as_str());
    let ls = lines_of(&chars_of(decoded.as_str()));
    string_of(&section_md_chars(None, &ls))
}

// ---------------------------------------------------------------------------
// The content of a fetched page
// ---------------------------------------------------------------------------

/// Whether `scraper` accepts a CSS selector group.
pub uninterp spec fn css_selector_parses(selector: Seq<char>) -> bool;

/// What `scraper` reads of a page: in the first element that `container` matches, each
/// element that `content` matches, both in the order in which `scraper` walks the tree, as
/// its tag name, its text nodes joined, and whether it carries `class`; `None` when
/// `container` matches nothing.
pub uninterp spec fn scraped_container(
    html: Seq<char>,
    container: Seq<char>,
    content: Seq<char>,
    class: Seq<char>,
) -> Option<Seq<(Seq<char>, Seq<char>, bool)>>;

/// What `scraper` gives as the text of a page's first element that `selector` matches: its
/// text nodes joined; `None` when it matches nothing.
pub uninterp spec fn scraped_text(html: Seq<char>, selector: Seq<char>) -> Option<Seq<char>>;

/// `Selector::parse`, its error taken as its message. Which selectors parse is named by
/// `css_selector_parses`, not stated.
#[verifier::external_body]
fn selector_error(selector: &str) -> (r: Option<String>)
    ensures
        r is None <==> css_selector_parses(selector@),
{
    match Selector::parse(selector) {
        Ok(_) => None,
        Err(e) => Some(e.to_string()),
    }
}

pub open spec fn element_views_opt(r: Option<Vec<PageElement>>) -> Option<Seq<(Seq<char>, Seq<char>, bool)>> {
    match r {
        None => None,
        Some(v) => Some(element_views(v@)),
    }
}

/// `scraper`: `Html::parse_document` of the page, its first element that `container`
/// matches (`Html::select(..).next()`), and in that element each one that `content` matches
/// (`ElementRef::select`), read by `Element::name`, `ElementRef::text` (joined) and
/// `Element::has_class(class)`, case-sensitive. The result is named by `scraped_container`;
/// what the documents hold is not stated.
#[verifier::external_body]
fn container_elements(html: &str, container: &str, content: &str, class: &str) -> (r: Option<Vec<PageElement>>)
    requires
        css_selector_parses(container@),
        css_selector_parses(content@),
    ensures
        element_views_opt(r) == scraped_container(html@, container@, content@, class@),
{
    let outer = Selector::parse(container).ok()?;
    let inner = Selector::parse(content).ok()?;
    let doc = Html::parse_document(html);
    let found = doc.select(&outer).next()?;
    let elements = found.select(&inner).map(|e| PageElement {
        tag: e.value().name().to_string(),
        text: e.text().collect::<Vec<_>>().join(""),
        subtitle: e.value().has_class(class, CaseSensitivity::CaseSensitive),
    });
    Some(elements.collect())
}

pub open spec fn string_opt(r: Option<String>) -> Option<Seq<char>> {
    match r {
        None => None,
        Some(t) => Some(t@),
    }
}

/// `scraper`: `Html::parse_document` of the page, its first element that `selector` matches
/// (`Html::select(..).next()`), and that element's text nodes joined (`ElementRef::text`).
/// The result is named by `scraped_text`; what the documents hold is not stated.
#[verifier::external_body]
fn first_match_text(html: &str, selector: &str) -> (r: Option<String>)
    requires
        css_selector_parses(selector@),
    ensures
        string_opt(r) == scraped_text(html@, selector@),
{
    let sel = Selector::parse(selector).ok()?;
    let doc = Html::parse_document(html);
    let found = doc.select(&sel).next()?;
    Some(found.text().collect::<Vec<_>>().join(""))
}

/// The elements of a page's content that become blocks.
pub const CONTENT_SELECTOR: &'static str = "h1, h2, h3, h4, h5, h6, p, div.subtitle";

/// The class that marks a `div` as a subtitle.
pub const SUBTITLE_CLASS: &'static str = "subtitle";

/// Why the content of a page could not be read.
pub enum ScrapeError {
    /// A container selector does not parse: the first such, by index, and `scraper`'s message.
    InvalidSelector { index: usize, message: String },
    /// The selector of content elements does not parse.
    InvalidContentSelector(String),
    /// No container selector matches anything on the page.
    NoContainer,
    /// The container holds no paragraph, heading or subtitle with text.
    NoContent,
}

/// The index of the first selector that does not parse, if any.
pub open spec fn first_bad_selector(ss: Seq<Seq<char>>) -> Option<int>
    decreases ss.len(),
{
    if ss.len() == 0 {
        None
    } else {
        match first_bad_selector(ss.drop_last()) {
            Some(i) => Some(i),
            None => if css_selector_parses(ss.last()) {
                None
            } else {
                Some(ss.len() - 1)
            },
        }
    }
}

/// The content elements of the first container that one of the selectors matches, trying
/// them in order; `None` when none matches.
pub open spec fn first_container(html: Seq<char>, ss: Seq<Seq<char>>) -> Option<
    Seq<(Seq<char>, Seq<char>, bool)>,
>
    decreases ss.len(),
{
    if ss.len() == 0 {
        None
    } else {
        match scraped_container(html, ss[0], CONTENT_SELECTOR@, SUBTITLE_CLASS@) {
            Some(es) => Some(es),
            None => first_container(html, ss.drop_first()),
        }
    }
}

/// The markdown blocks of a page: in the first element that one of the container selectors
/// matches (tried in order, the first that matches wins), its headings, paragraphs and
/// `* * *` subtitles with text, in the order `scraper` finds them. Every container selector
/// must parse; the first that does not is the error.
pub fn scrape_blocks(html: &str, selectors: &Vec<String>) -> (r: Result<Vec<String>, ScrapeError>)
    requires
        selectors.len() > 0,
    ensures
        ({
            let ss = string_views(selectors@);
            match first_bad_selector(ss) {
                Some(i) => r matches Err(ScrapeError::InvalidSelector { index, .. }) && index == i,
                None => if !css_selector_parses(CONTENT_SELECTOR@) {
                    r matches Err(ScrapeError::InvalidContentSelector(_))
                } else {
                    match first_container(html@, ss) {
                        None => r matches Err(ScrapeError::NoContainer),
                        Some(es) => if content_blocks_spec(es).len() == 0 {
                            r matches Err(ScrapeError::NoContent)
                        } else {
                            r matches Ok(blocks) && string_views(blocks@) == content_blocks_spec(es)
                        },
                    }
                },
            }
        }),
{
    let ghost ss = string_views(selectors@);
    let mut i: usize = 0;
    while i < selectors.len()
        invariant
            i <= selectors.len(),
            ss == string_views(selectors@),
            first_bad_selector(ss.take(i as int)) is None,
        decreases selectors.len() - i,
    {
        assert(ss.take(i + 1).drop_last() =~= ss.take(i as int));
        match selector_error(selectors[i].as_str()) {
            None => {},
            Some(message) => {
                proof {
                    lemma_first_bad_selector_prefix(ss, i + 1);
                }
                return Err(ScrapeError::InvalidSelector { index: i, message });
            },
        }
        i = i + 1;
    }
    assert(ss.take(i as int) =~= ss);
    if let Some(message) = selector_error(CONTENT_SELECTOR) {
        return Err(ScrapeError::InvalidContentSelector(message));
    }
    proof {
        lemma_no_bad_selector(ss);
    }
    assert(ss.skip(0) =~= ss);
    let mut k: usize = 0;
    while k < selectors.len()
        invariant
            k <= selectors.len(),
            ss == string_views(selectors@),
            css_selector_parses(CONTENT_SELECTOR@),
            first_bad_selector(ss) is None,
            forall|j: int| 0 <= j < ss.len() ==> css_selector_parses(#[trigger] ss[j]),
            first_container(html@, ss) == first_container(html@, ss.skip(k as int)),
        decreases selectors.len() - k,
    {
        assert(ss.skip(k as int).drop_first() =~= ss.skip(k + 1));
        assert(ss[k as int] == selectors@[k as int]@);
        assert(ss.skip(k as int)[0] == ss[k as int]);
        let found = container_elements(html, selectors[k].as_str(), CONTENT_SELECTOR, SUBTITLE_CLASS);
        if let Some(elements) = found {
            let blocks = content_blocks(&elements);
            assert(first_container(html@, ss) == Some(element_views(elements@)));
            if blocks.len() == 0 {
                return Err(ScrapeError::NoContent);
            }
            return Ok(blocks);
        }
        k = k + 1;
    }
    assert(ss.skip(k as int).len() == 0);
    Err(ScrapeError::NoContainer)
}

/// When no selector of a list is refused, every one of them parses.
proof fn lemma_no_bad_selector(ss: Seq<Seq<char>>)
    requires
        first_bad_selector(ss) is None,
    ensures
        forall|j: int| 0 <= j < ss.len() ==> css_selector_parses(#[trigger] ss[j]),
    decreases ss.len(),
{
    if ss.len() > 0 {
        lemma_no_bad_selector(ss.drop_last());
        assert forall|j: int| 0 <= j < ss.len() implies css_selector_parses(#[trigger] ss[j]) by {
            if j < ss.len() - 1 {
                assert(ss[j] == ss.drop_last()[j]);
            }
        }
    }
}

/// Once a prefix has a selector that does not parse, the whole list's first such is it.
proof fn lemma_first_bad_selector_prefix(ss: Seq<Seq<char>>, k: int)
    requires
        0 <= k <= ss.len(),
        first_bad_selector(ss.take(k)) is Some,
    ensures
        first_bad_selector(ss) == first_bad_selector(ss.take(k)),
    decreases ss.len() - k,
{
    if k < ss.len() {
        assert(ss.take(k + 1).drop_last() =~= ss.take(k));
        lemma_first_bad_selector_prefix(ss, k + 1);
    } else {
        assert(ss.take(k) =~= ss);
    }
}

/// What a page's HTTP response calls for.
#[derive(Clone, Copy, Debug, PartialEq, Eq, Structural)]
pub enum ResponseKind {
    /// A 503 from Cloudflare: slow down and fetch the page again.
    Throttled,
    /// Any other status outside 200-299: the load fails.
    Failed,
    /// A success: the page can be read.
    Success,
}

pub open spec fn response_kind_spec(status: u16, server: Option<Seq<char>>) -> ResponseKind {
    if status == 503 && (server matches Some(s) && crate::tts::eq_ignore_ascii_case(s, "cloudflare"@)) {
        ResponseKind::Throttled
    } else if !(200 <= status <= 299) {
        ResponseKind::Failed
    } else {
        ResponseKind::Success
    }
}

/// Classifies a page's response by its status code and its `server` header (when it is
/// readable text).
pub fn classify_response(status: u16, server: Option<&str>) -> (k: ResponseKind)
    ensures
        k == response_kind_spec(
            status,
            match server {
                None => None,
                Some(s) => Some(s@),
            },
        ),
{
    if status == 503 {
        match server {
            Some(s) => {
                if crate::tts::eq_ignore_ascii_case_exec(s, "cloudflare") {
                    return ResponseKind::Throttled;
                }
            },
            None => {},
        }
    }
    if status < 200 || status > 299 {
        ResponseKind::Failed
    } else {
        ResponseKind::Success
    }
}

// ---------------------------------------------------------------------------
// Chapter titles of loaded pages
// ---------------------------------------------------------------------------

pub open spec fn min3(x: int, y: int, z: int) -> int {
    if x <= y && x <= z {
        x
    } else if y <= z {
        y
    } else {
        z
    }
}

/// The Levenshtein distance: the fewest insertions, deletions and substitutions of
/// characters that turn `a` into `b`.
pub open spec fn levenshtein(a: Seq<char>, b: Seq<char>) -> nat
    decreases a.len() + b.len(),
{
    if a.len() == 0 {
        b.len()
    } else if b.len() == 0 {
        a.len()
    } else {
        min3(
            levenshtein(a.drop_last(), b) + 1int,
            levenshtein(a, b.drop_last()) + 1int,
            levenshtein(a.drop_last(), b.drop_last()) as int + if a.last() == b.last() {
                0int
            } else {
                1int
            },
        ) as nat
    }
}

proof fn lemma_levenshtein_bound(a: Seq<char>, b: Seq<char>)
    ensures
        levenshtein(a, b) <= if a.len() >= b.len() {
            a.len()
        } else {
            b.len()
        },
    decreases a.len() + b.len(),
{
    if a.len() > 0 && b.len() > 0 {
        lemma_levenshtein_bound(a.drop_last(), b.drop_last());
    }
}

/// The Levenshtein distance between two texts, by characters.
pub fn levenshtein_distance(a: &str, b: &str) -> (d: usize)
    ensures
        d == levenshtein(a@, b@),
{
    let av = chars_of(a);
    let bv = chars_of(b);
    let n = av.len();
    let m = bv.len();
    let mut prev: Vec<u128> = Vec::new();
    let mut j: usize = 0;
    assert(av@.take(0).len() == 0);
    while j < m
        invariant
            j <= m,
            m == bv.len(),
            prev.len() == j,
            forall|k: int| 0 <= k < j ==> prev@[k] == levenshtein(av@.take(0), bv@.take(k)),
        decreases m - j,
    {
        prev.push(j as u128);
        j = j + 1;
    }
    prev.push(m as u128);
    let mut i: usize = 0;
    while i < n
        invariant
            i <= n,
            n == av.len(),
            m == bv.len(),
            prev.len() == m + 1,
            forall|k: int| 0 <= k <= m ==> prev@[k] == levenshtein(av@.take(i as int), bv@.take(k)),
        decreases n - i,
    {
        let ghost ai = av@.take(i + 1);
        assert(ai.drop_last() =~= av@.take(i as int));
        assert(ai.last() == av@[i as int]);
        let mut cur: Vec<u128> = Vec::new();
        cur.push((i + 1) as u128);
        assert(bv@.take(0).len() == 0);
        let mut k: usize = 0;
        while k < m
            invariant
                k <= m,
                i < n,
                n == av.len(),
                m == bv.len(),
                prev.len() == m + 1,
                ai == av@.take(i + 1),
                ai.drop_last() == av@.take(i as int),
                ai.last() == av@[i as int],
                forall|q: int| 0 <= q <= m ==> prev@[q] == levenshtein(av@.take(i as int), bv@.take(q)),
                cur.len() == k + 1,
                forall|q: int| 0 <= q <= k ==> cur@[q] == levenshtein(ai, bv@.take(q)),
            decreases m - k,
        {
            let ghost bk = bv@.take(k + 1);
            assert(bk.drop_last() =~= bv@.take(k as int));
            assert(bk.last() == bv@[k as int]);
            proof {
                lemma_levenshtein_bound(av@.take(i as int), bv@.take(k + 1));
                lemma_levenshtein_bound(ai, bv@.take(k as int));
                lemma_levenshtein_bound(av@.take(i as int), bv@.take(k as int));
            }
            let del = prev[k + 1] + 1;
            let ins = cur[k] + 1;
            let sub = prev[k] + if av[i] == bv[k] {
                0
            } else {
                1
            };
            let best = if del <= ins && del <= sub {
                del
            } else if ins <= sub {
                ins
            } else {
                sub
            };
            cur.push(best);
            k = k + 1;
        }
        prev = cur;
        i = i + 1;
    }
    assert(av@.take(n as int) =~= av@);
    assert(bv@.take(m as int) =~= bv@);
    proof {
        lemma_levenshtein_bound(av@, bv@);
    }
    prev[m] as usize
}

/// Whether two titles differ by more than a quarter: their Levenshtein distance is more
/// than a quarter of the longer one's length (a normalized Levenshtein similarity below
/// 0.75).
pub open spec fn titles_differ_spec(a: Seq<char>, b: Seq<char>) -> bool {
    4 * levenshtein(a, b) > if a.len() >= b.len() {
        a.len()
    } else {
        b.len()
    }
}

pub fn titles_differ(a: &str, b: &str) -> (r: bool)
    ensures
        r == titles_differ_spec(a@, b@),
{
    let d = levenshtein_distance(a, b);
    let la = chars_of(a).len();
    let lb = chars_of(b).len();
    let longer = if la >= lb {
        la
    } else {
        lb
    };
    (4 * (d as u128)) > (longer as u128)
}

/// Which pages start a new chapter, given each page's title (if it has one): a page whose
/// title differs by more than a quarter from the title last kept (or that is the first
/// titled page) starts one, and its title is kept.
pub open spec fn chapter_starts_spec(ts: Seq<Option<Seq<char>>>) -> (Seq<bool>, Option<Seq<char>>)
    decreases ts.len(),
{
    if ts.len() == 0 {
        (seq![], None)
    } else {
        let (starts, kept) = chapter_starts_spec(ts.drop_last());
        match ts.last() {
            None => (starts.push(false), kept),
            Some(t) => match kept {
                Some(k) => if titles_differ_spec(k, t) {
                    (starts.push(true), Some(t))
                } else {
                    (starts.push(false), kept)
                },
                None => (starts.push(true), Some(t)),
            },
        }
    }
}

pub open spec fn title_views(ts: Seq<Option<String>>) -> Seq<Option<Seq<char>>> {
    ts.map_values(|t: Option<String>| match t {
        Some(s) => Some(s@),
        None => None,
    })
}

/// For pages in order with their titles, whether each starts a new chapter.
pub fn chapter_starts(titles: &Vec<Option<String>>) -> (r: Vec<bool>)
    ensures
        r@ == chapter_starts_spec(title_views(titles@)).0,
{
    let ghost ts = title_views(titles@);
    let mut starts: Vec<bool> = Vec::new();
    let mut kept: Option<String> = None;
    let mut i: usize = 0;
    while i < titles.len()
        invariant
            i <= titles.len(),
            ts == title_views(titles@),
            starts@ == chapter_starts_spec(ts.take(i as int)).0,
            match chapter_starts_spec(ts.take(i as int)).1 {
                None => kept is None,
                Some(k) => kept matches Some(x) && x@ == k,
            },
        decreases titles.len() - i,
    {
        assert(ts.take(i + 1).drop_last() =~= ts.take(i as int));
        assert(ts.take(i + 1).last() == ts[i as int]);
        match &titles[i] {
            None => {
                starts.push(false);
            },
            Some(t) => {
                let start = match &kept {
                    Some(k) => titles_differ(k.as_str(), t.as_str()),
                    None => true,
                };
                starts.push(start);
                if start {
                    kept = Some(t.clone());
                }
            },
        }
        i = i + 1;
    }
    assert(ts.take(titles.len() as int) =~= ts);
    starts
}

/// A loaded page that starts a chapter: its markdown under a `# title` line.
pub fn titled_page(md: &str, title: &str) -> (out: String)
    ensures
        out@ == crate::section::title_block(Some(title@)) + md@,
{
    let mut v: Vec<char> = Vec::new();
    v.push('#');
    v.push(' ');
    append_chars(&mut v, &chars_of(title));
    v.push('\n');
    append_chars(&mut v, &chars_of(md));
    string_of(&v)
}

/// A title from the text of the element that gives it: the text trimmed, when anything is
/// left.
pub open spec fn title_of(text: Option<Seq<char>>) -> Option<Seq<char>> {
    match text {
        None => None,
        Some(t) => trimmed_nonempty_spec(t),
    }
}

/// The title of a page: the text of the first element that the title selector matches,
/// trimmed; `None` when nothing matches or the text is blank. `Err` with `scraper`'s message
/// when the selector does not parse.
pub fn scrape_title(html: &str, selector: &str) -> (r: Result<Option<String>, String>)
    ensures
        r is Err <==> !css_selector_parses(selector@),
        css_selector_parses(selector@) ==> (r matches Ok(t) && string_opt(t) == title_of(
            scraped_text(html@, selector@),
        )),
{
    if let Some(message) = selector_error(selector) {
        return Err(message);
    }
    match first_match_text(html, selector) {
        None => Ok(None),
        Some(text) => {
            let t = trimmed_nonempty(text.as_str());
            Ok(t)
        },
    }
}

} // verus!
