//! The package structure of an EPUB book: where its package document (`.opf`) is, the
//! chapters in reading order, and the sections they give.
use vstd::prelude::*;

use crate::text::{
    chars_of, ends_with, ends_with_chars, find_char_from, first_index, is_ws, is_ws_exec,
    matches_at, slice_chars, starts_with, string_of,
};

verus! {

// ---------------------------------------------------------------------------
// Positions in a text
// ---------------------------------------------------------------------------

/// Whether `lit` occurs in `s` at `i`.
pub open spec fn at(s: Seq<char>, i: int, lit: Seq<char>) -> bool {
    0 <= i <= s.len() && starts_with(s.skip(i), lit)
}

/// The index of the first `c` in `s` at or after `i`, or `s.len()` when there is none.
pub open spec fn next_of(s: Seq<char>, i: int, c: char) -> int {
    i + first_index(s.skip(i), c)
}

// ---------------------------------------------------------------------------
// `META-INF/container.xml`: the path of the package document
// ---------------------------------------------------------------------------

/// `full-path="`
pub open spec fn full_path_key() -> Seq<char> {
    seq!['f', 'u', 'l', 'l', '-', 'p', 'a', 't', 'h', '=', '"']
}

/// The package document path that a `full-path="...opf"` at `p` gives: the text up to the
/// next quote, when it is longer than `.opf` and ends with it.
pub open spec fn opf_at(s: Seq<char>, p: int) -> Option<Seq<char>> {
    if at(s, p, full_path_key()) {
        let a = p + 11;
        let q = next_of(s, a, '"');
        if q < s.len() && q - a >= 5 && ends_with(s.subrange(a, q), seq!['.', 'o', 'p', 'f']) {
            Some(s.subrange(a, q))
        } else {
            None
        }
    } else {
        None
    }
}

/// The first package document path at or after `p`.
pub open spec fn opf_path_from(s: Seq<char>, p: int) -> Option<Seq<char>>
    decreases s.len() - p,
{
    if p < 0 || p >= s.len() {
        None
    } else {
        match opf_at(s, p) {
            Some(x) => Some(x),
            None => opf_path_from(s, p + 1),
        }
    }
}

/// The path of the package document that `container.xml` names: the leftmost
/// `full-path="X.opf"` (a quote-free `X` of at least one character).
pub fn find_opf_path(container: &str) -> (r: Option<String>)
    ensures
        match opf_path_from(container@, 0) {
            None => r is None,
            Some(x) => r matches Some(y) && y@ == x,
        },
{
    let v = chars_of(container);
    let mut key: Vec<char> = Vec::new();
    key.push('f');
    key.push('u');
    key.push('l');
    key.push('l');
    key.push('-');
    key.push('p');
    key.push('a');
    key.push('t');
    key.push('h');
    key.push('=');
    key.push('"');
    assert(key@ =~= full_path_key());
    let mut ext: Vec<char> = Vec::new();
    ext.push('.');
    ext.push('o');
    ext.push('p');
    ext.push('f');
    assert(ext@ =~= seq!['.', 'o', 'p', 'f']);
    let mut p: usize = 0;
    while p < v.len()
        invariant
            p <= v.len(),
            v@ == container@,
            key@ == full_path_key(),
            ext@ == seq!['.', 'o', 'p', 'f'],
            opf_path_from(v@, 0) == opf_path_from(v@, p as int),
        decreases v.len() - p,
    {
        if matches_at(&v, p, &key) {
            let a = p + 11;
            let q = find_char_from(&v, '"', a);
            if q < v.len() && q - a >= 5 {
                let seg = slice_chars(&v, a, q);
                if ends_with_chars(&seg, &ext) {
                    assert(opf_at(v@, p as int) == Some(seg@));
                    return Some(string_of(&seg));
                }
            }
        }
        assert(opf_at(v@, p as int) is None);
        p = p + 1;
    }
    None
}

// ---------------------------------------------------------------------------
// The package document: manifest items and the spine
// ---------------------------------------------------------------------------

/// `<item`
pub open spec fn item_open() -> Seq<char> {
    seq!['<', 'i', 't', 'e', 'm']
}

/// `<itemref`
pub open spec fn itemref_open() -> Seq<char> {
    seq!['<', 'i', 't', 'e', 'm', 'r', 'e', 'f']
}

/// `id="`
pub open spec fn id_key() -> Seq<char> {
    seq!['i', 'd', '=', '"']
}

/// `href="`
pub open spec fn href_key() -> Seq<char> {
    seq!['h', 'r', 'e', 'f', '=', '"']
}

/// `idref="`
pub open spec fn idref_key() -> Seq<char> {
    seq!['i', 'd', 'r', 'e', 'f', '=', '"']
}

/// Whether an attribute opening `key` (its name, `=` and a quote) is at `i`, followed by
/// a value of at least one character and a closing quote.
pub open spec fn quoted_at(s: Seq<char>, i: int, key: Seq<char>) -> bool {
    let e = next_of(s, i + key.len(), '"');
    at(s, i, key) && e < s.len() && e > i + key.len()
}

/// The index of the quote that closes the attribute value opened at `i`.
pub open spec fn value_end(s: Seq<char>, i: int, key: Seq<char>) -> int {
    next_of(s, i + key.len(), '"')
}

/// The value of the attribute opened at `i`.
pub open spec fn value_at(s: Seq<char>, i: int, key: Seq<char>) -> Seq<char> {
    s.subrange(i + key.len(), value_end(s, i, key))
}

/// The last position in `lo..hi` where an attribute `key` with a value opens.
pub open spec fn last_quoted(s: Seq<char>, key: Seq<char>, lo: int, hi: int) -> Option<int>
    decreases hi - lo,
{
    if hi <= lo {
        None
    } else if quoted_at(s, hi - 1, key) {
        Some(hi - 1)
    } else {
        last_quoted(s, key, lo, hi - 1)
    }
}

/// Where the `href` of an item is taken: the last `href="..."` that opens at or after
/// `from` before the next `>`.
pub open spec fn href_pos(s: Seq<char>, from: int) -> Option<int> {
    last_quoted(s, href_key(), from, next_of(s, from, '>'))
}

/// Where the `id` of an item is taken: the last `id="..."` in `lo..hi` that an `href`
/// follows.
pub open spec fn last_id(s: Seq<char>, lo: int, hi: int) -> Option<int>
    decreases hi - lo,
{
    if hi <= lo {
        None
    } else if quoted_at(s, hi - 1, id_key()) && href_pos(s, value_end(s, hi - 1, id_key()) + 1) is Some {
        Some(hi - 1)
    } else {
        last_id(s, lo, hi - 1)
    }
}

/// The manifest item (id, href) whose `<item` tag is at `p`, and where it ends: the tag
/// name and one whitespace character; within the tag, the last `id="..."` that an
/// `href="..."` follows, and the last such `href`; the item ends at the next `>`.
pub open spec fn item_at(s: Seq<char>, p: int) -> Option<(Seq<char>, Seq<char>, int)> {
    if at(s, p, item_open()) && p + 5 < s.len() && is_ws(s[p + 5]) {
        match last_id(s, p + 6, next_of(s, p + 6, '>')) {
            Some(a) => match href_pos(s, value_end(s, a, id_key()) + 1) {
                Some(h) => Some(
                    (
                        value_at(s, a, id_key()),
                        value_at(s, h, href_key()),
                        next_of(s, value_end(s, h, href_key()) + 1, '>'),
                    ),
                ),
                None => None,
            },
            None => None,
        }
    } else {
        None
    }
}

/// The manifest items at or after `p`, left to right, each search going on where the last
/// item ended.
pub open spec fn items_from(s: Seq<char>, p: int) -> Seq<(Seq<char>, Seq<char>)>
    decreases s.len() - p,
{
    if p < 0 || p >= s.len() {
        seq![]
    } else {
        match item_at(s, p) {
            Some(x) => if p < x.2 <= s.len() {
                seq![(x.0, x.1)] + items_from(s, x.2)
            } else {
                seq![]
            },
            None => items_from(s, p + 1),
        }
    }
}

/// The spine entry (idref) whose `<itemref` tag is at `p`, and where it ends: the tag name
/// and one whitespace character, then the last `idref="..."` before the next `>`.
pub open spec fn itemref_at(s: Seq<char>, p: int) -> Option<(Seq<char>, int)> {
    if at(s, p, itemref_open()) && p + 8 < s.len() && is_ws(s[p + 8]) {
        match last_quoted(s, idref_key(), p + 9, next_of(s, p + 9, '>')) {
            Some(a) => Some((value_at(s, a, idref_key()), value_end(s, a, idref_key()) + 1)),
            None => None,
        }
    } else {
        None
    }
}

/// The spine entries at or after `p`, left to right.
pub open spec fn itemrefs_from(s: Seq<char>, p: int) -> Seq<Seq<char>>
    decreases s.len() - p,
{
    if p < 0 || p >= s.len() {
        seq![]
    } else {
        match itemref_at(s, p) {
            Some(x) => if p < x.1 <= s.len() {
                seq![x.0] + itemrefs_from(s, x.1)
            } else {
                seq![]
            },
            None => itemrefs_from(s, p + 1),
        }
    }
}

/// The href of a manifest id: that of the last item with the id.
pub open spec fn manifest_href(items: Seq<(Seq<char>, Seq<char>)>, id: Seq<char>) -> Option<Seq<char>>
    decreases items.len(),
{
    if items.len() == 0 {
        None
    } else if items.last().0 == id {
        Some(items.last().1)
    } else {
        manifest_href(items.drop_last(), id)
    }
}

/// The hrefs of the spine entries, in order; entries the manifest does not know are left out.
pub open spec fn spine_of(refs: Seq<Seq<char>>, items: Seq<(Seq<char>, Seq<char>)>) -> Seq<Seq<char>>
    decreases refs.len(),
{
    if refs.len() == 0 {
        seq![]
    } else {
        spine_of(refs.drop_last(), items) + match manifest_href(items, refs.last()) {
            Some(h) => seq![h],
            None => seq![],
        }
    }
}

/// The reading order of a package document.
pub open spec fn spine_spec(opf: Seq<char>) -> Seq<Seq<char>> {
    spine_of(itemrefs_from(opf, 0), items_from(opf, 0))
}

proof fn lemma_last_quoted(s: Seq<char>, key: Seq<char>, lo: int, hi: int)
    ensures
        last_quoted(s, key, lo, hi) matches Some(k) ==> lo <= k < hi && quoted_at(s, k, key),
    decreases hi - lo,
{
    if hi > lo && !quoted_at(s, hi - 1, key) {
        lemma_last_quoted(s, key, lo, hi - 1);
    }
}

proof fn lemma_last_id(s: Seq<char>, lo: int, hi: int)
    ensures
        last_id(s, lo, hi) matches Some(k) ==> lo <= k < hi && quoted_at(s, k, id_key()) && href_pos(
            s,
            value_end(s, k, id_key()) + 1,
        ) is Some,
    decreases hi - lo,
{
    if hi > lo && !(quoted_at(s, hi - 1, id_key()) && href_pos(s, value_end(s, hi - 1, id_key()) + 1) is Some) {
        lemma_last_id(s, lo, hi - 1);
    }
}

fn lit_chars(lit: &str) -> (r: Vec<char>)
    ensures
        r@ == lit@,
{
    chars_of(lit)
}

fn quoted_exec(v: &Vec<char>, i: usize, key: &Vec<char>) -> (b: bool)
    requires
        i <= v.len(),
    ensures
        b == quoted_at(v@, i as int, key@),
{
    if !matches_at(v, i, key) {
        return false;
    }
    let st = i + key.len();
    let e = find_char_from(v, '"', st);
    e < v.len() && e > st
}

fn last_quoted_exec(v: &Vec<char>, key: &Vec<char>, lo: usize, hi: usize) -> (r: Option<usize>)
    requires
        lo <= hi <= v.len(),
    ensures
        match last_quoted(v@, key@, lo as int, hi as int) {
            None => r is None,
            Some(k) => r == Some(k as usize),
        },
{
    let mut k = hi;
    while k > lo
        invariant
            lo <= k <= hi <= v.len(),
            last_quoted(v@, key@, lo as int, hi as int) == last_quoted(v@, key@, lo as int, k as int),
        decreases k,
    {
        if quoted_exec(v, k - 1, key) {
            return Some(k - 1);
        }
        k = k - 1;
    }
    None
}

fn href_pos_exec(v: &Vec<char>, href: &Vec<char>, from: usize) -> (r: Option<usize>)
    requires
        from <= v.len(),
        href@ == href_key(),
    ensures
        match href_pos(v@, from as int) {
            None => r is None,
            Some(k) => r == Some(k as usize),
        },
{
    let g = find_char_from(v, '>', from);
    last_quoted_exec(v, href, from, g)
}

fn last_id_exec(v: &Vec<char>, id: &Vec<char>, href: &Vec<char>, lo: usize, hi: usize) -> (r: Option<usize>)
    requires
        lo <= hi <= v.len(),
        id@ == id_key(),
        href@ == href_key(),
    ensures
        match last_id(v@, lo as int, hi as int) {
            None => r is None,
            Some(k) => r == Some(k as usize),
        },
{
    let mut k = hi;
    while k > lo
        invariant
            lo <= k <= hi <= v.len(),
            id@ == id_key(),
            href@ == href_key(),
            last_id(v@, lo as int, hi as int) == last_id(v@, lo as int, k as int),
        decreases k,
    {
        if quoted_exec(v, k - 1, id) {
            let b = find_char_from(v, '"', k - 1 + 4);
            if href_pos_exec(v, href, b + 1).is_some() {
                return Some(k - 1);
            }
        }
        k = k - 1;
    }
    None
}

/// The keys the package document is scanned for.
struct OpfKeys {
    item: Vec<char>,
    itemref: Vec<char>,
    id: Vec<char>,
    href: Vec<char>,
    idref: Vec<char>,
}

impl OpfKeys {
    spec fn wf(&self) -> bool {
        &&& self.item@ == item_open()
        &&& self.itemref@ == itemref_open()
        &&& self.id@ == id_key()
        &&& self.href@ == href_key()
        &&& self.idref@ == idref_key()
    }

    fn new() -> (k: OpfKeys)
        ensures
            k.wf(),
    {
        let k = OpfKeys {
            item: lit_chars("<item"),
            itemref: lit_chars("<itemref"),
            id: lit_chars("id=\""),
            href: lit_chars("href=\""),
            idref: lit_chars("idref=\""),
        };
        proof {
            reveal_strlit("<item");
            reveal_strlit("<itemref");
            reveal_strlit("id=\"");
            reveal_strlit("href=\"");
            reveal_strlit("idref=\"");
            assert(k.item@ =~= item_open());
            assert(k.itemref@ =~= itemref_open());
            assert(k.id@ =~= id_key());
            assert(k.href@ =~= href_key());
            assert(k.idref@ =~= idref_key());
        }
        k
    }
}

fn item_exec(v: &Vec<char>, k: &OpfKeys, p: usize) -> (r: Option<(Vec<char>, Vec<char>, usize)>)
    requires
        p < v.len(),
        k.wf(),
    ensures
        match item_at(v@, p as int) {
            None => r is None,
            Some(x) => r matches Some(y) && y.0@ == x.0 && y.1@ == x.1 && y.2 == x.2 && p < y.2 <= v.len(),
        },
{
    if !matches_at(v, p, &k.item) || p + 5 >= v.len() || !is_ws_exec(v[p + 5]) {
        return None;
    }
    let g = find_char_from(v, '>', p + 6);
    proof {
        lemma_last_id(v@, p + 6, g as int);
    }
    match last_id_exec(v, &k.id, &k.href, p + 6, g) {
        None => None,
        Some(a) => {
            let b = find_char_from(v, '"', a + 4);
            match href_pos_exec(v, &k.href, b + 1) {
                None => None,
                Some(h) => {
                    proof {
                        lemma_last_quoted(v@, href_key(), b + 1, next_of(v@, b + 1, '>'));
                    }
                    let c = find_char_from(v, '"', h + 6);
                    let e = find_char_from(v, '>', c + 1);
                    Some((slice_chars(v, a + 4, b), slice_chars(v, h + 6, c), e))
                },
            }
        },
    }
}

fn itemref_exec(v: &Vec<char>, k: &OpfKeys, p: usize) -> (r: Option<(Vec<char>, usize)>)
    requires
        p < v.len(),
        k.wf(),
    ensures
        match itemref_at(v@, p as int) {
            None => r is None,
            Some(x) => r matches Some(y) && y.0@ == x.0 && y.1 == x.1 && p < y.1 <= v.len(),
        },
{
    if !matches_at(v, p, &k.itemref) || p + 8 >= v.len() || !is_ws_exec(v[p + 8]) {
        return None;
    }
    let g = find_char_from(v, '>', p + 9);
    proof {
        lemma_last_quoted(v@, idref_key(), p + 9, g as int);
    }
    match last_quoted_exec(v, &k.idref, p + 9, g) {
        None => None,
        Some(a) => {
            let b = find_char_from(v, '"', a + 7);
            Some((slice_chars(v, a + 7, b), b + 1))
        },
    }
}

pub open spec fn item_views(v: Seq<(Vec<char>, Vec<char>)>) -> Seq<(Seq<char>, Seq<char>)> {
    v.map_values(|x: (Vec<char>, Vec<char>)| (x.0@, x.1@))
}

fn manifest_items(v: &Vec<char>, k: &OpfKeys) -> (r: Vec<(Vec<char>, Vec<char>)>)
    requires
        k.wf(),
    ensures
        item_views(r@) == items_from(v@, 0),
{
    let mut out: Vec<(Vec<char>, Vec<char>)> = Vec::new();
    let mut p: usize = 0;
    assert(item_views(out@) + items_from(v@, 0) =~= items_from(v@, 0));
    while p < v.len()
        invariant
            p <= v.len(),
            k.wf(),
            items_from(v@, 0) == item_views(out@) + items_from(v@, p as int),
        decreases v.len() - p,
    {
        match item_exec(v, k, p) {
            Some(x) => {
                let ghost before = out@;
                let e = x.2;
                out.push((x.0, x.1));
                assert(item_views(out@) =~= item_views(before).push((out@.last().0@, out@.last().1@)));
                p = e;
            },
            None => {
                p = p + 1;
            },
        }
    }
    assert(items_from(v@, p as int) =~= Seq::<(Seq<char>, Seq<char>)>::empty());
    assert(item_views(out@) + items_from(v@, p as int) =~= item_views(out@));
    out
}

fn spine_refs(v: &Vec<char>, k: &OpfKeys) -> (r: Vec<Vec<char>>)
    requires
        k.wf(),
    ensures
        crate::text::views(r@) == itemrefs_from(v@, 0),
{
    let mut out: Vec<Vec<char>> = Vec::new();
    let mut p: usize = 0;
    assert(crate::text::views(out@) + itemrefs_from(v@, 0) =~= itemrefs_from(v@, 0));
    while p < v.len()
        invariant
            p <= v.len(),
            k.wf(),
            itemrefs_from(v@, 0) == crate::text::views(out@) + itemrefs_from(v@, p as int),
        decreases v.len() - p,
    {
        match itemref_exec(v, k, p) {
            Some(x) => {
                let e = x.1;
                proof {
                    crate::text::lemma_views_push(out@, x.0);
                }
                out.push(x.0);
                p = e;
            },
            None => {
                p = p + 1;
            },
        }
    }
    assert(itemrefs_from(v@, p as int) =~= Seq::<Seq<char>>::empty());
    assert(crate::text::views(out@) + itemrefs_from(v@, p as int) =~= crate::text::views(out@));
    out
}

fn same_chars(a: &Vec<char>, b: &Vec<char>) -> (r: bool)
    ensures
        r == (a@ == b@),
{
    if a.len() != b.len() {
        return false;
    }
    let mut i: usize = 0;
    while i < a.len()
        invariant
            i <= a.len() == b.len(),
            forall|j: int| 0 <= j < i ==> a@[j] == b@[j],
        decreases a.len() - i,
    {
        if a[i] != b[i] {
            return false;
        }
        i = i + 1;
    }
    assert(a@ =~= b@);
    true
}

fn manifest_lookup(items: &Vec<(Vec<char>, Vec<char>)>, id: &Vec<char>) -> (r: Option<usize>)
    ensures
        match manifest_href(item_views(items@), id@) {
            None => r is None,
            Some(h) => r matches Some(j) && j < items.len() && items@[j as int].1@ == h,
        },
{
    let mut j = items.len();
    assert(item_views(items@).take(j as int) =~= item_views(items@));
    while j > 0
        invariant
            j <= items.len(),
            manifest_href(item_views(items@), id@) == manifest_href(item_views(items@).take(j as int), id@),
        decreases j,
    {
        let ghost t = item_views(items@).take(j as int);
        assert(t.drop_last() =~= item_views(items@).take(j - 1));
        if same_chars(&items[j - 1].0, id) {
            return Some(j - 1);
        }
        j = j - 1;
    }
    None
}

/// The reading order of a package document: for each `<itemref ... idref="X"` of the spine,
/// in order, the `href` of the manifest `<item` whose `id` is `X` (the last such item); an
/// entry with no such item is left out.
pub fn read_spine(opf: &str) -> (r: Vec<String>)
    ensures
        r@.map_values(|s: String| s@) == spine_spec(opf@),
{
    let v = chars_of(opf);
    let k = OpfKeys::new();
    let items = manifest_items(&v, &k);
    let refs = spine_refs(&v, &k);
    let ghost rv = crate::text::views(refs@);
    let ghost iv = item_views(items@);
    let mut out: Vec<String> = Vec::new();
    let mut i: usize = 0;
    assert(out@.map_values(|s: String| s@) =~= spine_of(rv.take(0), iv));
    while i < refs.len()
        invariant
            i <= refs.len(),
            rv == crate::text::views(refs@),
            iv == item_views(items@),
            out@.map_values(|s: String| s@) == spine_of(rv.take(i as int), iv),
        decreases refs.len() - i,
    {
        assert(rv.take(i + 1).drop_last() =~= rv.take(i as int));
        assert(rv.take(i + 1).last() == refs@[i as int]@);
        match manifest_lookup(&items, &refs[i]) {
            Some(j) => {
                let x = string_of(&items[j].1);
                let ghost before = out@;
                out.push(x);
                assert(out@.map_values(|s: String| s@) =~= before.map_values(|s: String| s@).push(x@));
            },
            None => {},
        }
        assert(out@.map_values(|s: String| s@) =~= spine_of(rv.take(i + 1), iv));
        i = i + 1;
    }
    assert(rv.take(refs.len() as int) =~= rv);
    out
}

// ---------------------------------------------------------------------------
// Paths inside the archive, and the numbering of chapters
// ---------------------------------------------------------------------------

/// The index of the last `/` in `s`, or -1.
pub open spec fn last_slash(s: Seq<char>) -> int
    decreases s.len(),
{
    if s.len() == 0 {
        -1
    } else if s.last() == '/' {
        s.len() - 1
    } else {
        last_slash(s.drop_last())
    }
}

/// `s` without the `/`s at its end.
pub open spec fn trim_slashes_end(s: Seq<char>) -> Seq<char>
    decreases s.len(),
{
    if s.len() > 0 && s.last() == '/' {
        trim_slashes_end(s.drop_last())
    } else {
        s
    }
}

/// The directory of a path inside the archive: what comes before its last `/`, without
/// the `/`s at its end; empty for a path with no `/`.
pub open spec fn dir_of(path: Seq<char>) -> Seq<char> {
    if last_slash(path) < 0 {
        seq![]
    } else {
        trim_slashes_end(path.take(last_slash(path)))
    }
}

/// The directory of the package document, which chapter paths are relative to.
pub fn opf_dir(opf_path: &str) -> (r: String)
    ensures
        r@ == dir_of(opf_path@),
{
    let v = chars_of(opf_path);
    let mut j = v.len();
    assert(v@.take(j as int) =~= v@);
    while j > 0 && v[j - 1] != '/'
        invariant
            j <= v.len(),
            v@ == opf_path@,
            last_slash(v@) == last_slash(v@.take(j as int)),
        decreases j,
    {
        assert(v@.take(j as int).drop_last() =~= v@.take(j - 1));
        j = j - 1;
    }
    if j == 0 {
        return String::new();
    }
    let mut e = j - 1;
    assert(v@.take(j as int).last() == '/');
    assert(last_slash(v@) == e);
    while e > 0 && v[e - 1] == '/'
        invariant
            e < v.len(),
            v@ == opf_path@,
            dir_of(v@) == trim_slashes_end(v@.take(e as int)),
        decreases e,
    {
        assert(v@.take(e as int).drop_last() =~= v@.take(e - 1));
        e = e - 1;
    }
    string_of(&slice_chars(&v, 0, e))
}

/// The path in the archive of a chapter: its href, under the package directory when there
/// is one.
pub open spec fn entry_path_spec(dir: Seq<char>, href: Seq<char>) -> Seq<char> {
    if dir.len() == 0 {
        href
    } else {
        dir + seq!['/'] + href
    }
}

pub fn entry_path(dir: &str, href: &str) -> (r: String)
    ensures
        r@ == entry_path_spec(dir@, href@),
{
    let d = chars_of(dir);
    let h = chars_of(href);
    if d.len() == 0 {
        return string_of(&h);
    }
    let mut out = d;
    out.push('/');
    crate::text::append_chars(&mut out, &h);
    string_of(&out)
}

/// The values that are there, in order.
pub open spec fn somes<T>(s: Seq<Option<T>>) -> Seq<T>
    decreases s.len(),
{
    if s.len() == 0 {
        seq![]
    } else {
        somes(s.drop_last()) + match s.last() {
            Some(x) => seq![x],
            None => seq![],
        }
    }
}

/// The values that are there, numbered from 1.
pub open spec fn numbered_somes<T>(s: Seq<Option<T>>) -> Seq<(u32, T)> {
    somes(s).map(|i: int, x: T| ((i + 1) as u32, x))
}

} // verus!
