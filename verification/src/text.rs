use vstd::prelude::*;

verus! {

/// The characters of a string, in order.
pub fn chars_of(s: &str) -> (v: Vec<char>)
    ensures
        v@ == s@,
{
    let mut v: Vec<char> = Vec::new();
    for c in it: s.chars()
        invariant
            v@ == it.seq().take(it.index()),
            it.seq() == s@,
    {
        v.push(c);
    }
    v
}

/// `String::push`: appends one character.
#[verifier::external_body]
fn push_char(s: &mut String, c: char)
    ensures
        final(s)@ == old(s)@.push(c),
{
    s.push(c);
}

/// A string holding exactly the given characters.
pub fn string_of(v: &Vec<char>) -> (s: String)
    ensures
        s@ == v@,
{
    let mut s = String::new();
    let mut i: usize = 0;
    while i < v.len()
        invariant
            i <= v.len(),
            s@ == v@.take(i as int),
        decreases v.len() - i,
    {
        push_char(&mut s, v[i]);
        assert(v@.take(i + 1) == v@.take(i as int).push(v@[i as int]));
        i = i + 1;
    }
    assert(v@.take(v.len() as int) == v@);
    s
}

// ---------------------------------------------------------------------------
// Character classes
// ---------------------------------------------------------------------------

/// Unicode `White_Space`, the set `char::is_whitespace` (and hence `str::trim`) uses.
pub open spec fn is_ws(c: char) -> bool {
    ||| ('\u{9}' <= c && c <= '\u{d}')
    ||| c == ' '
    ||| c == '\u{85}'
    ||| c == '\u{a0}'
    ||| c == '\u{1680}'
    ||| ('\u{2000}' <= c && c <= '\u{200a}')
    ||| c == '\u{2028}'
    ||| c == '\u{2029}'
    ||| c == '\u{202f}'
    ||| c == '\u{205f}'
    ||| c == '\u{3000}'
}

pub fn is_ws_exec(c: char) -> (b: bool)
    ensures
        b == is_ws(c),
{
    ('\u{9}' <= c && c <= '\u{d}') || c == ' ' || c == '\u{85}' || c == '\u{a0}' || c
        == '\u{1680}' || ('\u{2000}' <= c && c <= '\u{200a}') || c == '\u{2028}' || c
        == '\u{2029}' || c == '\u{202f}' || c == '\u{205f}' || c == '\u{3000}'
}

pub open spec fn is_digit(c: char) -> bool {
    '0' <= c && c <= '9'
}

pub open spec fn is_ascii_alnum(c: char) -> bool {
    ||| is_digit(c)
    ||| ('a' <= c && c <= 'z')
    ||| ('A' <= c && c <= 'Z')
}

// ---------------------------------------------------------------------------
// Trimming
// ---------------------------------------------------------------------------

pub open spec fn trim_start(s: Seq<char>) -> Seq<char>
    decreases s.len(),
{
    if s.len() > 0 && is_ws(s[0]) {
        trim_start(s.drop_first())
    } else {
        s
    }
}

pub open spec fn trim_end(s: Seq<char>) -> Seq<char>
    decreases s.len(),
{
    if s.len() > 0 && is_ws(s.last()) {
        trim_end(s.drop_last())
    } else {
        s
    }
}

/// `str::trim`: whitespace removed from both ends.
pub open spec fn trim(s: Seq<char>) -> Seq<char> {
    trim_end(trim_start(s))
}

proof fn lemma_trim_start_at(s: Seq<char>, lo: int)
    requires
        0 <= lo <= s.len(),
        forall|k: int| 0 <= k < lo ==> is_ws(#[trigger] s[k]),
        lo == s.len() || !is_ws(s[lo]),
    ensures
        trim_start(s) == s.skip(lo),
    decreases lo,
{
    if lo == 0 {
        assert(s.skip(0) =~= s);
    } else {
        let t = s.drop_first();
        assert forall|k: int| 0 <= k < lo - 1 implies is_ws(#[trigger] t[k]) by {
            assert(t[k] == s[k + 1]);
        }
        lemma_trim_start_at(t, lo - 1);
        assert(t.skip(lo - 1) =~= s.skip(lo));
    }
}

proof fn lemma_trim_end_at(s: Seq<char>, hi: int)
    requires
        0 <= hi <= s.len(),
        forall|k: int| hi <= k < s.len() ==> is_ws(#[trigger] s[k]),
        hi == 0 || !is_ws(s[hi - 1]),
    ensures
        trim_end(s) == s.take(hi),
    decreases s.len() - hi,
{
    if hi == s.len() {
        assert(s.take(hi) =~= s);
    } else {
        let t = s.drop_last();
        assert forall|k: int| hi <= k < t.len() implies is_ws(#[trigger] t[k]) by {
            assert(t[k] == s[k]);
        }
        lemma_trim_end_at(t, hi);
        assert(t.take(hi) =~= s.take(hi));
    }
}

/// What `trim_start` leaves is a suffix that starts with a non-whitespace character, and
/// ends where `s` ends.
pub proof fn lemma_trim_start_shape(s: Seq<char>)
    ensures
        trim_start(s).len() <= s.len(),
        trim_start(s) == s.skip(s.len() - trim_start(s).len()),
        trim_start(s).len() > 0 ==> !is_ws(trim_start(s)[0]),
    decreases s.len(),
{
    if s.len() > 0 && is_ws(s[0]) {
        lemma_trim_start_shape(s.drop_first());
        assert(s.drop_first().skip(s.drop_first().len() - trim_start(s).len()) =~= s.skip(
            s.len() - trim_start(s).len(),
        ));
    } else {
        assert(s.skip(0) =~= s);
    }
}

/// What `trim_end` leaves is a prefix that ends with a non-whitespace character.
pub proof fn lemma_trim_end_shape(s: Seq<char>)
    ensures
        trim_end(s).len() <= s.len(),
        trim_end(s) == s.take(trim_end(s).len() as int),
        trim_end(s).len() > 0 ==> !is_ws(trim_end(s).last()),
    decreases s.len(),
{
    if s.len() > 0 && is_ws(s.last()) {
        lemma_trim_end_shape(s.drop_last());
        assert(s.drop_last().take(trim_end(s).len() as int) =~= s.take(trim_end(s).len() as int));
    } else {
        assert(s.take(s.len() as int) =~= s);
    }
}

/// `trim` leaves a piece of `s` that neither starts nor ends with whitespace.
pub proof fn lemma_trim_shape(s: Seq<char>)
    ensures
        trim(s).len() <= trim_start(s).len() <= s.len(),
        trim(s) == s.subrange(s.len() - trim_start(s).len(), s.len() - trim_start(s).len() + trim(s).len()),
        trim(s).len() > 0 ==> !is_ws(trim(s)[0]) && !is_ws(trim(s).last()),
{
    let t = trim_start(s);
    lemma_trim_start_shape(s);
    lemma_trim_end_shape(t);
    let k = s.len() - t.len();
    assert(t.take(trim(s).len() as int) =~= s.subrange(k, k + trim(s).len()));
    if trim(s).len() > 0 {
        assert(trim(s)[0] == t[0]);
    }
}

/// A text that neither starts nor ends with whitespace is its own trim.
pub proof fn lemma_trim_fixed(s: Seq<char>)
    requires
        s.len() == 0 || (!is_ws(s[0]) && !is_ws(s.last())),
    ensures
        trim(s) == s,
{
    lemma_trim_start_at(s, 0);
    assert(s.skip(0) =~= s);
    lemma_trim_end_at(s, s.len() as int);
    assert(s.take(s.len() as int) =~= s);
}

/// Trimming twice is trimming once.
pub proof fn lemma_trim_idempotent(s: Seq<char>)
    ensures
        trim(trim(s)) == trim(s),
{
    lemma_trim_shape(s);
    lemma_trim_fixed(trim(s));
}

proof fn lemma_trim_start_drop_ws_last(s: Seq<char>)
    requires
        s.len() > 0,
        is_ws(s.last()),
    ensures
        trim_start(s).len() > 0 ==> trim_start(s.drop_last()) == trim_start(s).drop_last()
            && trim_start(s).last() == s.last(),
        trim_start(s).len() == 0 ==> trim_start(s.drop_last()).len() == 0,
    decreases s.len(),
{
    if s.len() == 1 {
        assert(is_ws(s[0]));
        assert(s.drop_first().len() == 0);
        assert(trim_start(s) == trim_start(s.drop_first()));
        assert(s.drop_last().len() == 0);
    } else if is_ws(s[0]) {
        let t = s.drop_first();
        assert(t.last() == s.last());
        lemma_trim_start_drop_ws_last(t);
        assert(s.drop_last().drop_first() =~= t.drop_last());
        assert(s.drop_last()[0] == s[0]);
        assert(trim_start(s.drop_last()) == trim_start(s.drop_last().drop_first()));
    } else {
        assert(s.drop_last()[0] == s[0]);
        assert(trim_start(s) == s);
        assert(trim_start(s.drop_last()) == s.drop_last());
    }
}

/// A whitespace character at the end makes no difference to the trim.
pub proof fn lemma_trim_drop_ws_last(s: Seq<char>)
    requires
        s.len() > 0,
        is_ws(s.last()),
    ensures
        trim(s.drop_last()) == trim(s),
{
    lemma_trim_start_drop_ws_last(s);
    if trim_start(s).len() > 0 {
        let t = trim_start(s);
        assert(trim_end(t) == trim_end(t.drop_last()));
    }
}

/// A copy of `v[lo..hi]`.
pub fn slice_chars(v: &Vec<char>, lo: usize, hi: usize) -> (r: Vec<char>)
    requires
        lo <= hi <= v.len(),
    ensures
        r@ == v@.subrange(lo as int, hi as int),
{
    let mut r: Vec<char> = Vec::new();
    let mut i = lo;
    while i < hi
        invariant
            lo <= i <= hi <= v.len(),
            r@ == v@.subrange(lo as int, i as int),
        decreases hi - i,
    {
        r.push(v[i]);
        assert(v@.subrange(lo as int, i + 1) == v@.subrange(lo as int, i as int).push(v@[i as int]));
        i = i + 1;
    }
    r
}

/// The bounds `(lo, hi)` such that `v[lo..hi]` is `v` trimmed.
pub fn trim_bounds(v: &Vec<char>) -> (b: (usize, usize))
    ensures
        b.0 <= b.1 <= v.len(),
        trim(v@) == v@.subrange(b.0 as int, b.1 as int),
{
    let mut lo: usize = 0;
    while lo < v.len() && is_ws_exec(v[lo])
        invariant
            lo <= v.len(),
            forall|k: int| 0 <= k < lo ==> is_ws(#[trigger] v@[k]),
        decreases v.len() - lo,
    {
        lo = lo + 1;
    }
    proof {
        lemma_trim_start_at(v@, lo as int);
    }
    let mut hi: usize = v.len();
    while hi > lo && is_ws_exec(v[hi - 1])
        invariant
            lo <= hi <= v.len(),
            forall|k: int| hi <= k < v.len() ==> is_ws(#[trigger] v@[k]),
        decreases hi,
    {
        hi = hi - 1;
    }
    proof {
        let t = v@.skip(lo as int);
        assert forall|k: int| hi - lo <= k < t.len() implies is_ws(#[trigger] t[k]) by {
            assert(t[k] == v@[k + lo]);
        }
        lemma_trim_end_at(t, hi - lo);
        assert(t.take(hi - lo) =~= v@.subrange(lo as int, hi as int));
    }
    (lo, hi)
}

/// `v` with whitespace removed from both ends.
pub fn trim_chars(v: &Vec<char>) -> (r: Vec<char>)
    ensures
        r@ == trim(v@),
{
    let (lo, hi) = trim_bounds(v);
    slice_chars(v, lo, hi)
}

// ---------------------------------------------------------------------------
// Searching and splitting
// ---------------------------------------------------------------------------

/// Index of the first `c` in `s`, or `s.len()` when there is none.
pub open spec fn first_index(s: Seq<char>, c: char) -> int
    decreases s.len(),
{
    if s.len() == 0 {
        0
    } else if s[0] == c {
        0
    } else {
        1 + first_index(s.drop_first(), c)
    }
}

pub proof fn lemma_first_index_at(s: Seq<char>, c: char, i: int)
    requires
        0 <= i <= s.len(),
        forall|k: int| 0 <= k < i ==> #[trigger] s[k] != c,
        i == s.len() || s[i] == c,
    ensures
        first_index(s, c) == i,
    decreases i,
{
    if i > 0 {
        let t = s.drop_first();
        assert forall|k: int| 0 <= k < i - 1 implies #[trigger] t[k] != c by {
            assert(t[k] == s[k + 1]);
        }
        lemma_first_index_at(t, c, i - 1);
    }
}

pub proof fn lemma_first_index_bounds(s: Seq<char>, c: char)
    ensures
        0 <= first_index(s, c) <= s.len(),
        forall|k: int| 0 <= k < first_index(s, c) ==> #[trigger] s[k] != c,
        first_index(s, c) < s.len() ==> s[first_index(s, c)] == c,
    decreases s.len(),
{
    if s.len() > 0 && s[0] != c {
        let t = s.drop_first();
        lemma_first_index_bounds(t, c);
        assert forall|k: int| 0 <= k < first_index(s, c) implies #[trigger] s[k] != c by {
            if k > 0 {
                assert(s[k] == t[k - 1]);
            }
        }
    }
}

/// `str::split(c)`: the pieces between occurrences of `c` (at least one piece).
pub open spec fn split(s: Seq<char>, c: char) -> Seq<Seq<char>>
    decreases s.len(),
{
    let i = first_index(s, c);
    if i >= s.len() || i < 0 {
        seq![s]
    } else {
        seq![s.take(i)] + split(s.skip(i + 1), c)
    }
}

/// Splitting `x`, the separator, then `y` gives the pieces of `x` followed by those of `y`.
pub proof fn lemma_split_join(x: Seq<char>, y: Seq<char>, c: char)
    ensures
        split(x + seq![c] + y, c) == split(x, c) + split(y, c),
    decreases x.len(),
{
    let s = x + seq![c] + y;
    lemma_first_index_bounds(x, c);
    let i = first_index(x, c);
    if i < x.len() {
        assert forall|k: int| 0 <= k < i implies #[trigger] s[k] != c by {
            assert(s[k] == x[k]);
        }
        lemma_first_index_at(s, c, i);
        assert(s.take(i) =~= x.take(i));
        assert(s.skip(i + 1) =~= x.skip(i + 1) + seq![c] + y);
        lemma_split_join(x.skip(i + 1), y, c);
        assert(split(x, c) == seq![x.take(i)] + split(x.skip(i + 1), c));
        assert(split(s, c) =~= split(x, c) + split(y, c));
    } else {
        assert forall|k: int| 0 <= k < x.len() implies #[trigger] s[k] != c by {
            assert(s[k] == x[k]);
        }
        lemma_first_index_at(s, c, x.len() as int);
        assert(s.take(x.len() as int) =~= x);
        assert(s.skip(x.len() as int + 1) =~= y);
        assert(split(x, c) == seq![x]);
        assert(split(s, c) =~= split(x, c) + split(y, c));
    }
}

/// `str::split_once(c)`.
pub open spec fn split_once(s: Seq<char>, c: char) -> Option<(Seq<char>, Seq<char>)> {
    let i = first_index(s, c);
    if i >= s.len() || i < 0 {
        None
    } else {
        Some((s.take(i), s.skip(i + 1)))
    }
}

/// A line without its `\n` loses one trailing `\r`, as `str::lines` does.
pub open spec fn strip_cr(s: Seq<char>) -> Seq<char> {
    if s.len() > 0 && s.last() == '\r' {
        s.drop_last()
    } else {
        s
    }
}

/// `str::lines`: split at `\n`, a `\r` before the `\n` removed, no empty line after a final `\n`.
pub open spec fn lines(s: Seq<char>) -> Seq<Seq<char>>
    decreases s.len(),
{
    if s.len() == 0 {
        seq![]
    } else {
        let i = first_index(s, '\n');
        if i >= s.len() || i < 0 {
            seq![s]
        } else {
            seq![strip_cr(s.take(i))] + lines(s.skip(i + 1))
        }
    }
}

/// Whether `s` holds no newline.
pub open spec fn no_newline(s: Seq<char>) -> bool {
    forall|k: int| 0 <= k < s.len() ==> s[k] != '\n'
}

/// The lines of a line followed by a newline and more text.
pub proof fn lemma_lines_cons(a: Seq<char>, rest: Seq<char>)
    requires
        no_newline(a),
    ensures
        lines(a + seq!['\n'] + rest) == seq![strip_cr(a)] + lines(rest),
{
    let s = a + seq!['\n'] + rest;
    assert forall|k: int| 0 <= k < a.len() implies #[trigger] s[k] != '\n' by {
        assert(s[k] == a[k]);
    }
    lemma_first_index_at(s, '\n', a.len() as int);
    assert(s.take(a.len() as int) =~= a);
    assert(s.skip(a.len() as int + 1) =~= rest);
}

/// Lines of a text that ends with a newline, then of another text.
pub proof fn lemma_lines_append(x: Seq<char>, y: Seq<char>)
    requires
        x.len() == 0 || x.last() == '\n',
    ensures
        lines(x + y) == lines(x) + lines(y),
    decreases x.len(),
{
    if x.len() == 0 {
        assert(x + y =~= y);
        assert(lines(x) + lines(y) =~= lines(y));
    } else {
        let i = first_index(x, '\n');
        lemma_first_index_bounds(x, '\n');
        let s = x + y;
        assert forall|k: int| 0 <= k < i implies #[trigger] s[k] != '\n' by {
            assert(s[k] == x[k]);
        }
        lemma_first_index_at(s, '\n', i);
        assert(s.take(i) =~= x.take(i));
        let x2 = x.skip(i + 1);
        assert(s.skip(i + 1) =~= x2 + y);
        if x2.len() > 0 {
            assert(x2.last() == x.last());
        }
        lemma_lines_append(x2, y);
        assert(lines(x + y) =~= lines(x) + lines(y));
    }
}

/// The views of a sequence of character vectors.
pub open spec fn views(vs: Seq<Vec<char>>) -> Seq<Seq<char>> {
    vs.map_values(|x: Vec<char>| x@)
}

pub proof fn lemma_views_push(vs: Seq<Vec<char>>, x: Vec<char>)
    ensures
        views(vs.push(x)) == views(vs).push(x@),
{
    assert(views(vs.push(x)) =~= views(vs).push(x@));
}

/// Index of the first `c` in `v` at or after `from`, or `v.len()`.
pub fn find_char_from(v: &Vec<char>, c: char, from: usize) -> (i: usize)
    requires
        from <= v.len(),
    ensures
        from <= i <= v.len(),
        first_index(v@.skip(from as int), c) == i - from,
        forall|k: int| from <= k < i ==> #[trigger] v@[k] != c,
        i < v.len() ==> v@[i as int] == c,
{
    let mut i = from;
    while i < v.len() && v[i] != c
        invariant
            from <= i <= v.len(),
            forall|k: int| from <= k < i ==> #[trigger] v@[k] != c,
        decreases v.len() - i,
    {
        i = i + 1;
    }
    proof {
        let t = v@.skip(from as int);
        assert forall|k: int| 0 <= k < i - from implies #[trigger] t[k] != c by {
            assert(t[k] == v@[k + from]);
        }
        lemma_first_index_at(t, c, i - from);
    }
    i
}

/// The lines of `v`, as `str::lines` gives them.
pub fn lines_of(v: &Vec<char>) -> (r: Vec<Vec<char>>)
    ensures
        views(r@) == lines(v@),
{
    let mut r: Vec<Vec<char>> = Vec::new();
    let mut start: usize = 0;
    assert(v@.skip(0) =~= v@);
    while start < v.len()
        invariant
            start <= v.len(),
            lines(v@) == views(r@) + lines(v@.skip(start as int)),
        decreases v.len() - start,
    {
        let i = find_char_from(v, '\n', start);
        let ghost rest = v@.skip(start as int);
        if i == v.len() {
            let piece = slice_chars(v, start, i);
            assert(piece@ =~= rest);
            proof {
                lemma_views_push(r@, piece);
            }
            r.push(piece);
            start = i;
            assert(lines(v@.skip(start as int)) == Seq::<Seq<char>>::empty());
            assert(views(r@) + Seq::<Seq<char>>::empty() =~= views(r@));
        } else {
            let mut piece = slice_chars(v, start, i);
            if i > start && v[i - 1] == '\r' {
                piece.pop();
            }
            assert(rest.take(i - start) =~= v@.subrange(start as int, i as int));
            assert(piece@ == strip_cr(rest.take(i - start)));
            assert(rest.skip(i - start + 1) =~= v@.skip(i + 1));
            proof {
                lemma_views_push(r@, piece);
            }
            let ghost old_r = views(r@);
            r.push(piece);
            start = i + 1;
            assert(lines(rest) == seq![piece@] + lines(v@.skip(start as int)));
            assert(views(r@) + lines(v@.skip(start as int)) =~= old_r + (seq![piece@] + lines(
                v@.skip(start as int),
            )));
        }
    }
    assert(v@.skip(start as int) =~= Seq::<char>::empty());
    assert(views(r@) + Seq::<Seq<char>>::empty() =~= views(r@));
    r
}

/// The pieces of `v` between occurrences of `c`, as `str::split` gives them.
pub fn split_chars(v: &Vec<char>, c: char) -> (r: Vec<Vec<char>>)
    ensures
        views(r@) == split(v@, c),
{
    let mut r: Vec<Vec<char>> = Vec::new();
    let mut start: usize = 0;
    assert(v@.skip(0) =~= v@);
    loop
        invariant
            start <= v.len(),
            split(v@, c) == views(r@) + split(v@.skip(start as int), c),
        decreases v.len() - start,
    {
        let i = find_char_from(v, c, start);
        let ghost rest = v@.skip(start as int);
        let piece = slice_chars(v, start, i);
        assert(rest.take(i - start) =~= v@.subrange(start as int, i as int));
        proof {
            lemma_views_push(r@, piece);
        }
        let ghost old_r = views(r@);
        r.push(piece);
        if i == v.len() {
            assert(piece@ =~= rest);
            assert(split(rest, c) == seq![rest]);
            assert(split(v@, c) =~= views(r@));
            return r;
        }
        assert(rest.skip(i - start + 1) =~= v@.skip(i + 1));
        start = i + 1;
        assert(views(r@) + split(v@.skip(start as int), c) =~= old_r + (seq![piece@] + split(
            v@.skip(start as int),
            c,
        )));
    }
}


// ---------------------------------------------------------------------------
// Prefixes and replacement
// ---------------------------------------------------------------------------

pub open spec fn starts_with(s: Seq<char>, p: Seq<char>) -> bool {
    p.len() <= s.len() && s.take(p.len() as int) == p
}

/// Whether `v[at..]` starts with `p`.
pub fn matches_at(v: &Vec<char>, at: usize, p: &Vec<char>) -> (b: bool)
    requires
        at <= v.len(),
    ensures
        b == starts_with(v@.skip(at as int), p@),
{
    if p.len() > v.len() - at {
        return false;
    }
    let mut k: usize = 0;
    while k < p.len()
        invariant
            k <= p.len(),
            at + p.len() <= v.len(),
            forall|j: int| 0 <= j < k ==> v@[at + j] == p@[j],
        decreases p.len() - k,
    {
        if v[at + k] != p[k] {
            assert(v@.skip(at as int).take(p.len() as int)[k as int] != p@[k as int]);
            return false;
        }
        k = k + 1;
    }
    assert(v@.skip(at as int).take(p.len() as int) =~= p@);
    true
}

/// `str::replace(p, r)`: every non-overlapping occurrence of `p`, left to right, replaced by `r`.
pub open spec fn replace_all(s: Seq<char>, p: Seq<char>, r: Seq<char>) -> Seq<char>
    recommends
        p.len() > 0,
    decreases s.len(),
{
    if s.len() == 0 || p.len() == 0 {
        s
    } else if starts_with(s, p) {
        r + replace_all(s.skip(p.len() as int), p, r)
    } else {
        seq![s[0]] + replace_all(s.drop_first(), p, r)
    }
}

pub fn append_chars(out: &mut Vec<char>, x: &Vec<char>)
    ensures
        final(out)@ == old(out)@ + x@,
{
    let mut i: usize = 0;
    while i < x.len()
        invariant
            i <= x.len(),
            out@ == old(out)@ + x@.take(i as int),
        decreases x.len() - i,
    {
        out.push(x[i]);
        assert(x@.take(i + 1) == x@.take(i as int).push(x@[i as int]));
        i = i + 1;
    }
    assert(x@.take(x.len() as int) =~= x@);
}

/// `v` with every occurrence of `p` replaced by `r`, as `str::replace` does.
pub fn replace_chars(v: &Vec<char>, p: &Vec<char>, r: &Vec<char>) -> (out: Vec<char>)
    requires
        p.len() > 0,
    ensures
        out@ == replace_all(v@, p@, r@),
{
    let mut out: Vec<char> = Vec::new();
    let mut i: usize = 0;
    assert(v@.skip(0) =~= v@);
    while i < v.len()
        invariant
            i <= v.len(),
            p.len() > 0,
            replace_all(v@, p@, r@) == out@ + replace_all(v@.skip(i as int), p@, r@),
        decreases v.len() - i,
    {
        let ghost rest = v@.skip(i as int);
        let ghost old_out = out@;
        if matches_at(v, i, p) {
            append_chars(&mut out, r);
            assert(rest.skip(p.len() as int) =~= v@.skip(i + p.len()));
            i = i + p.len();
            assert(out@ + replace_all(v@.skip(i as int), p@, r@) =~= old_out + (r@ + replace_all(
                v@.skip(i as int),
                p@,
                r@,
            )));
        } else {
            out.push(v[i]);
            assert(rest.drop_first() =~= v@.skip(i + 1));
            assert(rest[0] == v@[i as int]);
            i = i + 1;
            assert(out@ + replace_all(v@.skip(i as int), p@, r@) =~= old_out + (seq![rest[0]]
                + replace_all(v@.skip(i as int), p@, r@)));
        }
    }
    assert(v@.skip(i as int) =~= Seq::<char>::empty());
    assert(out@ + Seq::<char>::empty() =~= out@);
    out
}

// ---------------------------------------------------------------------------
// Numbers
// ---------------------------------------------------------------------------

pub open spec fn all_digits(s: Seq<char>) -> bool {
    forall|i: int| 0 <= i < s.len() ==> is_digit(#[trigger] s[i])
}

/// The value of a run of decimal digits.
pub open spec fn digits_value(s: Seq<char>) -> nat
    decreases s.len(),
{
    if s.len() == 0 {
        0
    } else {
        digits_value(s.drop_last()) * 10 + ((s.last() as nat) - ('0' as nat)) as nat
    }
}

/// What `str::parse` accepts for an unsigned integer: an optional `+`, then one or more
/// decimal digits. The value may still be too large for the target type.
pub open spec fn parse_uint(s: Seq<char>) -> Option<nat> {
    let d = if s.len() > 0 && s[0] == '+' {
        s.drop_first()
    } else {
        s
    };
    if d.len() > 0 && all_digits(d) {
        Some(digits_value(d))
    } else {
        None
    }
}

/// `str::parse::<u64>()`.
pub open spec fn parse_u64_spec(s: Seq<char>) -> Option<u64> {
    match parse_uint(s) {
        Some(n) => if n <= u64::MAX {
            Some(n as u64)
        } else {
            None
        },
        None => None,
    }
}

/// `str::parse::<u32>()`.
pub open spec fn parse_u32_spec(s: Seq<char>) -> Option<u32> {
    match parse_uint(s) {
        Some(n) => if n <= u32::MAX {
            Some(n as u32)
        } else {
            None
        },
        None => None,
    }
}

proof fn lemma_digits_value_prefix(s: Seq<char>, k: int)
    requires
        0 <= k <= s.len(),
        all_digits(s),
    ensures
        digits_value(s.take(k)) <= digits_value(s),
    decreases s.len() - k,
{
    if k < s.len() {
        lemma_digits_value_prefix(s, k + 1);
        assert(s.take(k + 1).drop_last() =~= s.take(k));
    } else {
        assert(s.take(k) =~= s);
    }
}

/// The value of the digits `v[from..]`, when all of them are digits and it fits in a `u64`.
fn digits_u64(v: &Vec<char>, from: usize) -> (r: Option<u64>)
    requires
        from <= v.len(),
    ensures
        ({
            let d = v@.skip(from as int);
            r == (if d.len() > 0 && all_digits(d) && digits_value(d) <= u64::MAX {
                Some(digits_value(d) as u64)
            } else {
                None
            })
        }),
{
    let ghost d = v@.skip(from as int);
    if from == v.len() {
        return None;
    }
    let mut acc: u64 = 0;
    let mut i = from;
    assert(d.take(0) =~= Seq::<char>::empty());
    while i < v.len()
        invariant
            from <= i <= v.len(),
            d == v@.skip(from as int),
            all_digits(d.take(i - from)),
            acc as nat == digits_value(d.take(i - from)),
        decreases v.len() - i,
    {
        let c = v[i];
        if !('0' <= c && c <= '9') {
            assert(!is_digit(d[i - from]));
            return None;
        }
        let dig = (c as u32 - '0' as u32) as u64;
        assert(d.take(i - from + 1).drop_last() =~= d.take(i - from));
        assert(d.take(i - from + 1).last() == c);
        if acc > (u64::MAX - dig) / 10 {
            proof {
                assert(acc * 10 + dig > u64::MAX) by (nonlinear_arith)
                    requires
                        acc > (u64::MAX - dig) / 10,
                        dig <= 9,
                ;
                if all_digits(d) {
                    lemma_digits_value_prefix(d, i - from + 1);
                }
            }
            return None;
        }
        assert(acc * 10 + dig <= u64::MAX) by (nonlinear_arith)
            requires
                acc <= (u64::MAX - dig) / 10,
                dig <= 9,
        ;
        acc = acc * 10 + dig;
        i = i + 1;
        assert forall|j: int| 0 <= j < i - from implies is_digit(#[trigger] d.take(i - from)[j]) by {
            if j < i - from - 1 {
                assert(d.take(i - from)[j] == d.take(i - from - 1)[j]);
            }
        }
    }
    assert(d.take(i - from) =~= d);
    Some(acc)
}

/// `str::parse::<u64>()` on the characters of `v`.
pub fn parse_u64(v: &Vec<char>) -> (r: Option<u64>)
    ensures
        r == parse_u64_spec(v@),
{
    let from: usize = if v.len() > 0 && v[0] == '+' {
        1
    } else {
        0
    };
    assert(v@.skip(1) =~= v@.drop_first());
    assert(v@.skip(0) =~= v@);
    digits_u64(v, from)
}

/// `str::parse::<u32>()` on the characters of `v`.
pub fn parse_u32(v: &Vec<char>) -> (r: Option<u32>)
    ensures
        r == parse_u32_spec(v@),
{
    match parse_u64(v) {
        Some(n) => if n <= u32::MAX as u64 {
            Some(n as u32)
        } else {
            None
        },
        None => None,
    }
}

pub open spec fn digit_char(d: nat) -> char {
    (('0' as nat) + d) as char
}

/// The decimal rendering of `n`, as `Display` writes an unsigned integer.
pub open spec fn decimal(n: nat) -> Seq<char>
    decreases n,
{
    if n < 10 {
        seq![digit_char(n)]
    } else {
        decimal(n / 10).push(digit_char(n % 10))
    }
}

/// Appends the decimal rendering of `n`.
pub fn push_decimal(out: &mut Vec<char>, n: u64)
    ensures
        final(out)@ == old(out)@ + decimal(n as nat),
    decreases n,
{
    if n >= 10 {
        push_decimal(out, n / 10);
    }
    let d = (n % 10) as u8;
    let c = (48u8 + d) as char;
    assert(c == digit_char((n % 10) as nat));
    out.push(c);
    if n >= 10 {
        assert(old(out)@ + decimal(n as nat) =~= old(out)@ + decimal((n / 10) as nat) + seq![c]);
    } else {
        assert(old(out)@ + decimal(n as nat) =~= old(out)@.push(c));
    }
}

/// `decimal` renders digits that read back as the number.
pub proof fn lemma_decimal(n: nat)
    ensures
        decimal(n).len() > 0,
        all_digits(decimal(n)),
        digits_value(decimal(n)) == n,
        parse_uint(decimal(n)) == Some(n),
    decreases n,
{
    let c = digit_char(n % 10);
    assert(c as nat == 48 + n % 10);
    assert(is_digit(c));
    if n >= 10 {
        lemma_decimal(n / 10);
        let d = decimal(n / 10);
        assert(decimal(n).drop_last() =~= d);
        assert(decimal(n).last() == c);
        assert forall|i: int| 0 <= i < decimal(n).len() implies is_digit(#[trigger] decimal(n)[i]) by {
            if i < d.len() {
                assert(decimal(n)[i] == d[i]);
            }
        }
        assert(digits_value(decimal(n)) == digits_value(d) * 10 + ((c as nat) - ('0' as nat)) as nat);
        assert(digits_value(d) == n / 10);
        assert(n == (n / 10) * 10 + n % 10);
        assert(digits_value(decimal(n)) == n);
    } else {
        assert(decimal(n) == seq![c]);
        assert(decimal(n).drop_last() =~= Seq::<char>::empty());
        assert(digits_value(Seq::<char>::empty()) == 0);
        assert(n % 10 == n);
        assert(digits_value(decimal(n)) == digits_value(decimal(n).drop_last()) * 10 + ((c as nat) - ('0' as nat)) as nat);
    }
    assert(decimal(n)[0] != '+');
    assert(decimal(n).len() > 0 && all_digits(decimal(n)));
}

/// Of a number that fits in 32 bits, `decimal` reads back as a `u32`.
pub proof fn lemma_decimal_u32(n: u32)
    ensures
        parse_u32_spec(decimal(n as nat)) == Some(n),
{
    lemma_decimal(n as nat);
}

/// Length of the run of decimal digits that `s` starts with.
pub open spec fn digit_prefix_len(s: Seq<char>) -> int
    decreases s.len(),
{
    if s.len() > 0 && is_digit(s[0]) {
        1 + digit_prefix_len(s.drop_first())
    } else {
        0
    }
}

pub proof fn lemma_digit_prefix_len_at(s: Seq<char>, i: int)
    requires
        0 <= i <= s.len(),
        forall|k: int| 0 <= k < i ==> is_digit(#[trigger] s[k]),
        i == s.len() || !is_digit(s[i]),
    ensures
        digit_prefix_len(s) == i,
    decreases i,
{
    if i > 0 {
        let t = s.drop_first();
        assert forall|k: int| 0 <= k < i - 1 implies is_digit(#[trigger] t[k]) by {
            assert(t[k] == s[k + 1]);
        }
        lemma_digit_prefix_len_at(t, i - 1);
    }
}

pub fn is_digit_exec(c: char) -> (b: bool)
    ensures
        b == is_digit(c),
{
    '0' <= c && c <= '9'
}

/// A decimal digit of any script: Unicode general category `Nd` (Unicode 16.0), the
/// characters that `\d` stands for in a Unicode regular expression.
pub open spec fn is_decimal_digit(c: char) -> bool {
    ||| ('\u{30}' <= c && c <= '\u{39}')
    ||| ('\u{660}' <= c && c <= '\u{669}')
    ||| ('\u{6f0}' <= c && c <= '\u{6f9}')
    ||| ('\u{7c0}' <= c && c <= '\u{7c9}')
    ||| ('\u{966}' <= c && c <= '\u{96f}')
    ||| ('\u{9e6}' <= c && c <= '\u{9ef}')
    ||| ('\u{a66}' <= c && c <= '\u{a6f}')
    ||| ('\u{ae6}' <= c && c <= '\u{aef}')
    ||| ('\u{b66}' <= c && c <= '\u{b6f}')
    ||| ('\u{be6}' <= c && c <= '\u{bef}')
    ||| ('\u{c66}' <= c && c <= '\u{c6f}')
    ||| ('\u{ce6}' <= c && c <= '\u{cef}')
    ||| ('\u{d66}' <= c && c <= '\u{d6f}')
    ||| ('\u{de6}' <= c && c <= '\u{def}')
    ||| ('\u{e50}' <= c && c <= '\u{e59}')
    ||| ('\u{ed0}' <= c && c <= '\u{ed9}')
    ||| ('\u{f20}' <= c && c <= '\u{f29}')
    ||| ('\u{1040}' <= c && c <= '\u{1049}')
    ||| ('\u{1090}' <= c && c <= '\u{1099}')
    ||| ('\u{17e0}' <= c && c <= '\u{17e9}')
    ||| ('\u{1810}' <= c && c <= '\u{1819}')
    ||| ('\u{1946}' <= c && c <= '\u{194f}')
    ||| ('\u{19d0}' <= c && c <= '\u{19d9}')
    ||| ('\u{1a80}' <= c && c <= '\u{1a89}')
    ||| ('\u{1a90}' <= c && c <= '\u{1a99}')
    ||| ('\u{1b50}' <= c && c <= '\u{1b59}')
    ||| ('\u{1bb0}' <= c && c <= '\u{1bb9}')
    ||| ('\u{1c40}' <= c && c <= '\u{1c49}')
    ||| ('\u{1c50}' <= c && c <= '\u{1c59}')
    ||| ('\u{a620}' <= c && c <= '\u{a629}')
    ||| ('\u{a8d0}' <= c && c <= '\u{a8d9}')
    ||| ('\u{a900}' <= c && c <= '\u{a909}')
    ||| ('\u{a9d0}' <= c && c <= '\u{a9d9}')
    ||| ('\u{a9f0}' <= c && c <= '\u{a9f9}')
    ||| ('\u{aa50}' <= c && c <= '\u{aa59}')
    ||| ('\u{abf0}' <= c && c <= '\u{abf9}')
    ||| ('\u{ff10}' <= c && c <= '\u{ff19}')
    ||| ('\u{104a0}' <= c && c <= '\u{104a9}')
    ||| ('\u{10d30}' <= c && c <= '\u{10d39}')
    ||| ('\u{10d40}' <= c && c <= '\u{10d49}')
    ||| ('\u{11066}' <= c && c <= '\u{1106f}')
    ||| ('\u{110f0}' <= c && c <= '\u{110f9}')
    ||| ('\u{11136}' <= c && c <= '\u{1113f}')
    ||| ('\u{111d0}' <= c && c <= '\u{111d9}')
    ||| ('\u{112f0}' <= c && c <= '\u{112f9}')
    ||| ('\u{11450}' <= c && c <= '\u{11459}')
    ||| ('\u{114d0}' <= c && c <= '\u{114d9}')
    ||| ('\u{11650}' <= c && c <= '\u{11659}')
    ||| ('\u{116c0}' <= c && c <= '\u{116c9}')
    ||| ('\u{116d0}' <= c && c <= '\u{116e3}')
    ||| ('\u{11730}' <= c && c <= '\u{11739}')
    ||| ('\u{118e0}' <= c && c <= '\u{118e9}')
    ||| ('\u{11950}' <= c && c <= '\u{11959}')
    ||| ('\u{11bf0}' <= c && c <= '\u{11bf9}')
    ||| ('\u{11c50}' <= c && c <= '\u{11c59}')
    ||| ('\u{11d50}' <= c && c <= '\u{11d59}')
    ||| ('\u{11da0}' <= c && c <= '\u{11da9}')
    ||| ('\u{11f50}' <= c && c <= '\u{11f59}')
    ||| ('\u{16130}' <= c && c <= '\u{16139}')
    ||| ('\u{16a60}' <= c && c <= '\u{16a69}')
    ||| ('\u{16ac0}' <= c && c <= '\u{16ac9}')
    ||| ('\u{16b50}' <= c && c <= '\u{16b59}')
    ||| ('\u{16d70}' <= c && c <= '\u{16d79}')
    ||| ('\u{1ccf0}' <= c && c <= '\u{1ccf9}')
    ||| ('\u{1d7ce}' <= c && c <= '\u{1d7ff}')
    ||| ('\u{1e140}' <= c && c <= '\u{1e149}')
    ||| ('\u{1e2f0}' <= c && c <= '\u{1e2f9}')
    ||| ('\u{1e4f0}' <= c && c <= '\u{1e4f9}')
    ||| ('\u{1e5f1}' <= c && c <= '\u{1e5fa}')
    ||| ('\u{1e950}' <= c && c <= '\u{1e959}')
    ||| ('\u{1fbf0}' <= c && c <= '\u{1fbf9}')
}

pub fn is_decimal_digit_exec(c: char) -> (b: bool)
    ensures
        b == is_decimal_digit(c),
{
    ('\u{30}' <= c && c <= '\u{39}')
    || ('\u{660}' <= c && c <= '\u{669}')
    || ('\u{6f0}' <= c && c <= '\u{6f9}')
    || ('\u{7c0}' <= c && c <= '\u{7c9}')
    || ('\u{966}' <= c && c <= '\u{96f}')
    || ('\u{9e6}' <= c && c <= '\u{9ef}')
    || ('\u{a66}' <= c && c <= '\u{a6f}')
    || ('\u{ae6}' <= c && c <= '\u{aef}')
    || ('\u{b66}' <= c && c <= '\u{b6f}')
    || ('\u{be6}' <= c && c <= '\u{bef}')
    || ('\u{c66}' <= c && c <= '\u{c6f}')
    || ('\u{ce6}' <= c && c <= '\u{cef}')
    || ('\u{d66}' <= c && c <= '\u{d6f}')
    || ('\u{de6}' <= c && c <= '\u{def}')
    || ('\u{e50}' <= c && c <= '\u{e59}')
    || ('\u{ed0}' <= c && c <= '\u{ed9}')
    || ('\u{f20}' <= c && c <= '\u{f29}')
    || ('\u{1040}' <= c && c <= '\u{1049}')
    || ('\u{1090}' <= c && c <= '\u{1099}')
    || ('\u{17e0}' <= c && c <= '\u{17e9}')
    || ('\u{1810}' <= c && c <= '\u{1819}')
    || ('\u{1946}' <= c && c <= '\u{194f}')
    || ('\u{19d0}' <= c && c <= '\u{19d9}')
    || ('\u{1a80}' <= c && c <= '\u{1a89}')
    || ('\u{1a90}' <= c && c <= '\u{1a99}')
    || ('\u{1b50}' <= c && c <= '\u{1b59}')
    || ('\u{1bb0}' <= c && c <= '\u{1bb9}')
    || ('\u{1c40}' <= c && c <= '\u{1c49}')
    || ('\u{1c50}' <= c && c <= '\u{1c59}')
    || ('\u{a620}' <= c && c <= '\u{a629}')
    || ('\u{a8d0}' <= c && c <= '\u{a8d9}')
    || ('\u{a900}' <= c && c <= '\u{a909}')
    || ('\u{a9d0}' <= c && c <= '\u{a9d9}')
    || ('\u{a9f0}' <= c && c <= '\u{a9f9}')
    || ('\u{aa50}' <= c && c <= '\u{aa59}')
    || ('\u{abf0}' <= c && c <= '\u{abf9}')
    || ('\u{ff10}' <= c && c <= '\u{ff19}')
    || ('\u{104a0}' <= c && c <= '\u{104a9}')
    || ('\u{10d30}' <= c && c <= '\u{10d39}')
    || ('\u{10d40}' <= c && c <= '\u{10d49}')
    || ('\u{11066}' <= c && c <= '\u{1106f}')
    || ('\u{110f0}' <= c && c <= '\u{110f9}')
    || ('\u{11136}' <= c && c <= '\u{1113f}')
    || ('\u{111d0}' <= c && c <= '\u{111d9}')
    || ('\u{112f0}' <= c && c <= '\u{112f9}')
    || ('\u{11450}' <= c && c <= '\u{11459}')
    || ('\u{114d0}' <= c && c <= '\u{114d9}')
    || ('\u{11650}' <= c && c <= '\u{11659}')
    || ('\u{116c0}' <= c && c <= '\u{116c9}')
    || ('\u{116d0}' <= c && c <= '\u{116e3}')
    || ('\u{11730}' <= c && c <= '\u{11739}')
    || ('\u{118e0}' <= c && c <= '\u{118e9}')
    || ('\u{11950}' <= c && c <= '\u{11959}')
    || ('\u{11bf0}' <= c && c <= '\u{11bf9}')
    || ('\u{11c50}' <= c && c <= '\u{11c59}')
    || ('\u{11d50}' <= c && c <= '\u{11d59}')
    || ('\u{11da0}' <= c && c <= '\u{11da9}')
    || ('\u{11f50}' <= c && c <= '\u{11f59}')
    || ('\u{16130}' <= c && c <= '\u{16139}')
    || ('\u{16a60}' <= c && c <= '\u{16a69}')
    || ('\u{16ac0}' <= c && c <= '\u{16ac9}')
    || ('\u{16b50}' <= c && c <= '\u{16b59}')
    || ('\u{16d70}' <= c && c <= '\u{16d79}')
    || ('\u{1ccf0}' <= c && c <= '\u{1ccf9}')
    || ('\u{1d7ce}' <= c && c <= '\u{1d7ff}')
    || ('\u{1e140}' <= c && c <= '\u{1e149}')
    || ('\u{1e2f0}' <= c && c <= '\u{1e2f9}')
    || ('\u{1e4f0}' <= c && c <= '\u{1e4f9}')
    || ('\u{1e5f1}' <= c && c <= '\u{1e5fa}')
    || ('\u{1e950}' <= c && c <= '\u{1e959}')
    || ('\u{1fbf0}' <= c && c <= '\u{1fbf9}')
}


/// How many characters at the end of `s` are decimal digits of any script.
pub open spec fn trailing_decimal(s: Seq<char>) -> int
    decreases s.len(),
{
    if s.len() > 0 && is_decimal_digit(s.last()) {
        1 + trailing_decimal(s.drop_last())
    } else {
        0
    }
}

pub proof fn lemma_trailing_decimal_at(s: Seq<char>, i: int)
    requires
        0 <= i <= s.len(),
        forall|k: int| i <= k < s.len() ==> is_decimal_digit(#[trigger] s[k]),
        i == 0 || !is_decimal_digit(s[i - 1]),
    ensures
        trailing_decimal(s) == s.len() - i,
    decreases s.len() - i,
{
    if i < s.len() {
        let t = s.drop_last();
        assert forall|k: int| i <= k < t.len() implies is_decimal_digit(#[trigger] t[k]) by {
            assert(t[k] == s[k]);
        }
        lemma_trailing_decimal_at(t, i);
    }
}

/// How many decimal digits `s` ends with.
pub open spec fn trailing_digits(s: Seq<char>) -> int
    decreases s.len(),
{
    if s.len() > 0 && is_digit(s.last()) {
        1 + trailing_digits(s.drop_last())
    } else {
        0
    }
}

pub proof fn lemma_trailing_digits_at(s: Seq<char>, i: int)
    requires
        0 <= i <= s.len(),
        forall|k: int| i <= k < s.len() ==> is_digit(#[trigger] s[k]),
        i == 0 || !is_digit(s[i - 1]),
    ensures
        trailing_digits(s) == s.len() - i,
    decreases s.len() - i,
{
    if i < s.len() {
        let t = s.drop_last();
        assert forall|k: int| i <= k < t.len() implies is_digit(#[trigger] t[k]) by {
            assert(t[k] == s[k]);
        }
        lemma_trailing_digits_at(t, i);
    }
}

pub open spec fn ends_with(s: Seq<char>, p: Seq<char>) -> bool {
    p.len() <= s.len() && s.skip(s.len() - p.len()) == p
}

pub fn ends_with_chars(v: &Vec<char>, p: &Vec<char>) -> (b: bool)
    ensures
        b == ends_with(v@, p@),
{
    if p.len() > v.len() {
        return false;
    }
    let k = v.len() - p.len();
    assert(v@.skip(k as int).take(p.len() as int) =~= v@.skip(k as int));
    matches_at(v, k, p)
}

} // verus!
