//! Splitting a section's text for translation, and the checks on what comes back.
use vstd::prelude::*;
use vstd::string::StringSliceAdditionalSpecFns;
use vstd::utf8::{
    encode_utf8,
    is_char_boundary, is_char_boundary_iff_not_is_continuation_byte,
    is_char_boundary_start_end_of_seq, length_of_first_scalar, pop_first_scalar, valid_utf8,
    valid_utf8_split, encode_utf8_valid_utf8,
};

use crate::load::join_by;
use crate::section::{first_heading, rebuild_section, section_md};
use crate::text::{append_chars, chars_of, lines, matches_at, starts_with, string_of};

verus! {

/// The size, in bytes, that a chunk of text to translate aims at.
pub const CHUNK_LIMIT: usize = 5000;

/// A translation longer than this many times its input is taken for a model stuck in a loop.
pub const MAX_EXPANSION: usize = 3;

/// The greatest character boundary at or below `i` (`str::floor_char_boundary`).
pub open spec fn floor_boundary(b: Seq<u8>, i: int) -> int
    decreases i,
{
    if i >= b.len() {
        b.len() as int
    } else if i <= 0 {
        0
    } else if is_char_boundary(b, i) {
        i
    } else {
        floor_boundary(b, i - 1)
    }
}

/// The position of the last newline byte in `b[lo..hi]`.
pub open spec fn last_newline(b: Seq<u8>, lo: int, hi: int) -> Option<int>
    decreases hi - lo,
{
    if hi <= lo {
        None
    } else if b[hi - 1] == 10u8 {
        Some(hi - 1)
    } else {
        last_newline(b, lo, hi - 1)
    }
}

/// Where the chunk that starts at `off` ends: just after the last newline within the limit,
/// or at the limit (rounded down to a character boundary) when there is none.
pub open spec fn next_cut(b: Seq<u8>, off: int) -> int {
    let t = floor_boundary(b, off + CHUNK_LIMIT);
    match last_newline(b, off, t) {
        Some(p) => p + 1,
        None => t,
    }
}

/// `k` chunks cut from `off` on, then the rest of the text as the last chunk.
pub open spec fn chunks_from(b: Seq<u8>, off: int, k: nat) -> Seq<Seq<u8>>
    decreases k,
{
    if k == 0 {
        seq![b.subrange(off, b.len() as int)]
    } else {
        let c = next_cut(b, off);
        seq![b.subrange(off, c)] + chunks_from(b, c, (k - 1) as nat)
    }
}

/// How many chunks a text of `len` bytes is split into.
pub open spec fn chunk_count(len: nat) -> nat {
    ((len + CHUNK_LIMIT - 1) / (CHUNK_LIMIT as int)) as nat
}

/// The chunks of a text, as bytes.
pub open spec fn chunks_spec(b: Seq<u8>) -> Seq<Seq<u8>> {
    if b.len() <= CHUNK_LIMIT {
        seq![b]
    } else {
        chunks_from(b, 0, (chunk_count(b.len()) - 1) as nat)
    }
}

pub open spec fn byte_views(s: Seq<&str>) -> Seq<Seq<u8>> {
    s.map_values(|x: &str| x.spec_bytes())
}

/// The position after a byte below 0x80 is a character boundary.
proof fn lemma_boundary_after_ascii(b: Seq<u8>, p: int)
    requires
        valid_utf8(b),
        0 <= p < b.len(),
        b[p] < 0x80,
    ensures
        is_char_boundary(b, p + 1),
    decreases b.len(),
{
    let l = length_of_first_scalar(b);
    let rest = pop_first_scalar(b);
    assert(valid_utf8(rest));
    if p == 0 {
        assert(l == 1);
        assert(is_char_boundary(rest, 0));
    } else {
        assert(p >= l) by {
            if p < l {
                assert(0x80 <= b[p] <= 0xbf);
            }
        }
        assert(rest[p - l] == b[p]);
        lemma_boundary_after_ascii(rest, p - l);
    }
}

/// A boundary of a text is a boundary of every prefix that ends on a boundary.
proof fn lemma_boundary_in_prefix(b: Seq<u8>, off: int, cut: int)
    requires
        valid_utf8(b),
        0 <= off <= cut <= b.len(),
        is_char_boundary(b, off),
        is_char_boundary(b, cut),
    ensures
        is_char_boundary(b.subrange(0, cut), off),
        valid_utf8(b.subrange(0, cut)),
{
    valid_utf8_split(b, cut);
    let h = b.subrange(0, cut);
    is_char_boundary_start_end_of_seq(h);
    if 0 < off < cut {
        is_char_boundary_iff_not_is_continuation_byte(b, off);
        is_char_boundary_iff_not_is_continuation_byte(h, off);
    }
}

proof fn lemma_floor_boundary(b: Seq<u8>, i: int, j: int)
    requires
        valid_utf8(b),
        0 <= j <= i,
        j <= b.len(),
        is_char_boundary(b, j),
    ensures
        j <= floor_boundary(b, i) <= b.len(),
        floor_boundary(b, i) <= i,
        is_char_boundary(b, floor_boundary(b, i)),
    decreases i,
{
    is_char_boundary_start_end_of_seq(b);
    if i >= b.len() {
    } else if i <= 0 {
    } else if is_char_boundary(b, i) {
    } else {
        lemma_floor_boundary(b, i - 1, j);
    }
}

proof fn lemma_last_newline(b: Seq<u8>, lo: int, hi: int)
    requires
        0 <= lo <= hi <= b.len(),
    ensures
        match last_newline(b, lo, hi) {
            Some(p) => lo <= p < hi && b[p] == 10u8 && forall|q: int|
                p < q < hi ==> b[q] != 10u8,
            None => forall|q: int| lo <= q < hi ==> b[q] != 10u8,
        },
    decreases hi - lo,
{
    if hi > lo && b[hi - 1] != 10u8 {
        lemma_last_newline(b, lo, hi - 1);
    }
}

/// The next cut lies on a boundary, after the start of the chunk and within the text.
proof fn lemma_next_cut(b: Seq<u8>, off: int)
    requires
        valid_utf8(b),
        0 <= off <= b.len(),
        is_char_boundary(b, off),
    ensures
        off <= next_cut(b, off) <= b.len(),
        is_char_boundary(b, next_cut(b, off)),
{
    let t = floor_boundary(b, off + CHUNK_LIMIT);
    lemma_floor_boundary(b, off + CHUNK_LIMIT, off);
    lemma_last_newline(b, off, t);
    match last_newline(b, off, t) {
        Some(p) => {
            lemma_boundary_after_ascii(b, p);
        },
        None => {},
    }
}

/// Cutting a text into chunks loses and adds nothing: they concatenate back to it.
pub proof fn lemma_chunks_from_concat(b: Seq<u8>, off: int, k: nat)
    requires
        valid_utf8(b),
        0 <= off <= b.len(),
        is_char_boundary(b, off),
    ensures
        chunks_from(b, off, k).flatten() == b.subrange(off, b.len() as int),
    decreases k,
{
    if k == 0 {
        let s = chunks_from(b, off, k);
        s.lemma_flatten_one_element();
    } else {
        let c = next_cut(b, off);
        lemma_next_cut(b, off);
        lemma_chunks_from_concat(b, c, (k - 1) as nat);
        let s = chunks_from(b, off, k);
        assert(s.drop_first() =~= chunks_from(b, c, (k - 1) as nat));
        assert(s.flatten() =~= b.subrange(off, c) + b.subrange(c, b.len() as int));
        assert(b.subrange(off, c) + b.subrange(c, b.len() as int) =~= b.subrange(
            off,
            b.len() as int,
        ));
    }
}

/// The chunks of a text concatenate back to the text.
pub proof fn lemma_chunks_concat(s: &str)
    ensures
        chunks_spec(s.spec_bytes()).flatten() == s.spec_bytes(),
{
    let b = s.spec_bytes();
    encode_utf8_valid_utf8(s@);
    is_char_boundary_start_end_of_seq(b);
    if b.len() <= CHUNK_LIMIT {
        let c = chunks_spec(b);
        c.lemma_flatten_one_element();
    } else {
        lemma_chunks_from_concat(b, 0, (chunk_count(b.len()) - 1) as nat);
        assert(b.subrange(0, b.len() as int) =~= b);
    }
}

/// A chunk cut as it should be: within the limit, and ending with a newline whenever it
/// holds one (cut at its last paragraph boundary).
pub open spec fn well_cut(c: Seq<u8>) -> bool {
    &&& c.len() <= CHUNK_LIMIT
    &&& (c.len() == 0 || c.last() == 10u8 || forall|j: int| 0 <= j < c.len() ==> c[j] != 10u8)
}

proof fn lemma_chunks_from_well_cut(b: Seq<u8>, off: int, k: nat)
    requires
        valid_utf8(b),
        0 <= off <= b.len(),
        is_char_boundary(b, off),
    ensures
        chunks_from(b, off, k).len() == k + 1,
        forall|i: int| 0 <= i < k ==> well_cut(#[trigger] chunks_from(b, off, k)[i]),
    decreases k,
{
    if k > 0 {
        let c = next_cut(b, off);
        lemma_next_cut(b, off);
        lemma_chunks_from_well_cut(b, c, (k - 1) as nat);
        let t = floor_boundary(b, off + CHUNK_LIMIT);
        lemma_floor_boundary(b, off + CHUNK_LIMIT, off);
        lemma_last_newline(b, off, t);
        let first = b.subrange(off, c);
        assert(well_cut(first)) by {
            match last_newline(b, off, t) {
                Some(p) => {
                    assert(first.last() == b[p]);
                },
                None => {
                    assert forall|j: int| 0 <= j < first.len() implies first[j] != 10u8 by {
                        assert(first[j] == b[off + j]);
                    }
                },
            }
        }
        let all = chunks_from(b, off, k);
        assert forall|i: int| 0 <= i < k implies well_cut(#[trigger] all[i]) by {
            if i > 0 {
                assert(all[i] == chunks_from(b, c, (k - 1) as nat)[i - 1]);
            }
        }
    }
}

/// Every chunk but the last is at most `CHUNK_LIMIT` bytes, and ends with a newline when it
/// holds one: a text is cut at paragraph boundaries wherever the limit allows.
pub proof fn lemma_chunks_well_cut(s: &str)
    ensures
        forall|i: int|
            0 <= i < chunks_spec(s.spec_bytes()).len() - 1 ==> well_cut(
                #[trigger] chunks_spec(s.spec_bytes())[i],
            ),
{
    let b = s.spec_bytes();
    encode_utf8_valid_utf8(s@);
    is_char_boundary_start_end_of_seq(b);
    if b.len() > CHUNK_LIMIT {
        lemma_chunks_from_well_cut(b, 0, (chunk_count(b.len()) - 1) as nat);
    }
}

/// A boundary before the end of a text has another boundary after it, at most four bytes on.
proof fn lemma_next_boundary(b: Seq<u8>, off: int) -> (j: int)
    requires
        valid_utf8(b),
        0 <= off < b.len(),
        is_char_boundary(b, off),
    ensures
        off < j <= off + 4,
        j <= b.len(),
        is_char_boundary(b, j),
    decreases b.len(),
{
    let l = length_of_first_scalar(b);
    let rest = pop_first_scalar(b);
    assert(1 <= l <= 4);
    assert(l <= b.len());
    assert(rest.len() == b.len() - l);
    assert(valid_utf8(rest));
    if off == 0 {
        assert(is_char_boundary(rest, 0));
        l
    } else {
        assert(is_char_boundary(rest, off - l));
        let j2 = lemma_next_boundary(rest, off - l);
        assert(is_char_boundary(b, j2 + l));
        j2 + l
    }
}

/// Before the end of a text, the next cut moves forward by at least one byte and at most
/// `CHUNK_LIMIT` bytes.
proof fn lemma_next_cut_advances(b: Seq<u8>, off: int)
    requires
        valid_utf8(b),
        0 <= off < b.len(),
        is_char_boundary(b, off),
    ensures
        off < next_cut(b, off) <= off + CHUNK_LIMIT,
{
    let j = lemma_next_boundary(b, off);
    let t = floor_boundary(b, off + CHUNK_LIMIT);
    lemma_floor_boundary(b, off + CHUNK_LIMIT, j);
    lemma_last_newline(b, off, t);
}

/// The bytes between two boundaries of a text are whole characters.
proof fn lemma_piece_valid(b: Seq<u8>, lo: int, hi: int)
    requires
        valid_utf8(b),
        0 <= lo <= hi <= b.len(),
        is_char_boundary(b, lo),
        is_char_boundary(b, hi),
    ensures
        valid_utf8(b.subrange(lo, hi)),
{
    lemma_boundary_in_prefix(b, lo, hi);
    let h = b.subrange(0, hi);
    valid_utf8_split(h, lo);
    assert(h.subrange(lo, h.len() as int) =~= b.subrange(lo, hi));
}

proof fn lemma_chunks_from_shape(b: Seq<u8>, off: int, k: nat)
    requires
        valid_utf8(b),
        0 <= off <= b.len(),
        is_char_boundary(b, off),
        off + k * CHUNK_LIMIT < b.len(),
    ensures
        chunks_from(b, off, k).len() == k + 1,
        forall|i: int|
            0 <= i <= k ==> (#[trigger] chunks_from(b, off, k)[i]).len() > 0 && valid_utf8(
                chunks_from(b, off, k)[i],
            ),
    decreases k,
{
    is_char_boundary_start_end_of_seq(b);
    if k == 0 {
        lemma_piece_valid(b, off, b.len() as int);
    } else {
        let c = next_cut(b, off);
        lemma_next_cut_advances(b, off);
        lemma_next_cut(b, off);
        lemma_piece_valid(b, off, c);
        assert(c + (k - 1) * CHUNK_LIMIT < b.len()) by (nonlinear_arith)
            requires
                c <= off + CHUNK_LIMIT,
                off + k * CHUNK_LIMIT < b.len(),
                k >= 1,
        ;
        lemma_chunks_from_shape(b, c, (k - 1) as nat);
        let all = chunks_from(b, off, k);
        assert forall|i: int| 0 <= i <= k implies (#[trigger] all[i]).len() > 0 && valid_utf8(
            all[i],
        ) by {
            if i > 0 {
                assert(all[i] == chunks_from(b, c, (k - 1) as nat)[i - 1]);
            }
        }
    }
}

/// A text is cut into `ceil(len / CHUNK_LIMIT)` chunks (a single one when it fits the
/// limit); no chunk is empty unless the text is, and every chunk is whole characters: each
/// cut falls on a character boundary.
pub proof fn lemma_chunks_shape(s: &str)
    ensures
        chunks_spec(s.spec_bytes()).len() == if s.spec_bytes().len() <= CHUNK_LIMIT {
            1
        } else {
            chunk_count(s.spec_bytes().len())
        },
        forall|i: int|
            0 <= i < chunks_spec(s.spec_bytes()).len() ==> valid_utf8(
                #[trigger] chunks_spec(s.spec_bytes())[i],
            ) && (s.spec_bytes().len() > 0 ==> chunks_spec(s.spec_bytes())[i].len() > 0),
{
    let b = s.spec_bytes();
    encode_utf8_valid_utf8(s@);
    is_char_boundary_start_end_of_seq(b);
    if b.len() > CHUNK_LIMIT {
        let n = chunk_count(b.len());
        assert(n >= 2 && (n - 1) * CHUNK_LIMIT < b.len()) by (nonlinear_arith)
            requires
                n == (b.len() + CHUNK_LIMIT - 1) / (CHUNK_LIMIT as int),
                b.len() > CHUNK_LIMIT,
        ;
        lemma_chunks_from_shape(b, 0, (n - 1) as nat);
    } else {
        assert(b.subrange(0, b.len() as int) =~= b);
    }
}

/// Whether `t` is the greatest character boundary of `b` at or below `lim`: the point at
/// which a chunk that may hold at most `lim` bytes from the start of the text is cut when
/// there is no paragraph boundary to cut at.
pub open spec fn last_boundary_within(b: Seq<u8>, lim: int, t: int) -> bool {
    &&& 0 <= t <= b.len()
    &&& t <= lim
    &&& is_char_boundary(b, t)
    &&& forall|k: int| t < k <= lim && k <= b.len() ==> !is_char_boundary(b, k)
}

/// How a chunk that starts at `o` and holds `l` bytes is cut, against the greatest
/// character boundary within the limit: it is not empty and within the limit; no newline
/// follows it within the limit; it ends just after a newline when there is one within the
/// limit, and at the limit when there is none.
pub open spec fn cut_at_last_paragraph(b: Seq<u8>, o: int, l: int) -> bool {
    forall|t: int|
        #![trigger last_boundary_within(b, o + CHUNK_LIMIT, t)]
        last_boundary_within(b, o + CHUNK_LIMIT, t) ==> {
            &&& o < o + l <= t
            &&& forall|j: int| o + l <= j < t ==> b[j] != 10u8
            &&& (exists|j: int| o <= j < t && b[j] == 10u8) ==> b[o + l - 1] == 10u8
            &&& (forall|j: int| o <= j < t ==> b[j] != 10u8) ==> o + l == t
        }
}

/// The greatest boundary at or below a point is `floor_boundary`.
proof fn lemma_floor_boundary_greatest(b: Seq<u8>, i: int)
    requires
        valid_utf8(b),
        i >= 0,
    ensures
        forall|k: int| floor_boundary(b, i) < k <= i && k <= b.len() ==> !is_char_boundary(b, k),
    decreases i,
{
    if i >= b.len() {
    } else if i <= 0 {
    } else if is_char_boundary(b, i) {
    } else {
        lemma_floor_boundary_greatest(b, i - 1);
    }
}

/// The cut after a boundary before the end is made at the last paragraph boundary within
/// the limit, or at the limit.
proof fn lemma_next_cut_is_last_paragraph(b: Seq<u8>, o: int)
    requires
        valid_utf8(b),
        0 <= o < b.len(),
        is_char_boundary(b, o),
    ensures
        cut_at_last_paragraph(b, o, next_cut(b, o) - o),
{
    let t0 = floor_boundary(b, o + CHUNK_LIMIT);
    lemma_floor_boundary(b, o + CHUNK_LIMIT, o);
    lemma_floor_boundary_greatest(b, o + CHUNK_LIMIT);
    lemma_next_cut_advances(b, o);
    lemma_last_newline(b, o, t0);
    let e = next_cut(b, o);
    assert forall|t: int| #![trigger last_boundary_within(b, o + CHUNK_LIMIT, t)]
        last_boundary_within(b, o + CHUNK_LIMIT, t) implies {
            &&& o < o + (e - o) <= t
            &&& forall|j: int| o + (e - o) <= j < t ==> b[j] != 10u8
            &&& (exists|j: int| o <= j < t && b[j] == 10u8) ==> b[o + (e - o) - 1] == 10u8
            &&& (forall|j: int| o <= j < t ==> b[j] != 10u8) ==> o + (e - o) == t
        } by {
        if t < t0 {
            assert(!is_char_boundary(b, t0));
        }
        if t0 < t {
            assert(!is_char_boundary(b, t));
        }
        assert(t == t0);
        match last_newline(b, o, t0) {
            Some(p) => {
                assert(e == p + 1);
            },
            None => {
                assert(e == t0);
            },
        }
    }
}

/// Where chunk `i` of `cs` starts: the bytes of the chunks before it.
pub open spec fn chunk_start(cs: Seq<Seq<u8>>, i: int) -> int {
    cs.take(i).flatten().len() as int
}

proof fn lemma_chunks_from_cuts(b: Seq<u8>, off: int, k: nat)
    requires
        valid_utf8(b),
        0 <= off <= b.len(),
        is_char_boundary(b, off),
        off + k * CHUNK_LIMIT < b.len(),
    ensures
        forall|i: int|
            0 <= i < k ==> cut_at_last_paragraph(
                b,
                off + chunk_start(chunks_from(b, off, k), i),
                (#[trigger] chunks_from(b, off, k)[i]).len() as int,
            ),
    decreases k,
{
    if k > 0 {
        let c = next_cut(b, off);
        lemma_next_cut_advances(b, off);
        lemma_next_cut(b, off);
        lemma_next_cut_is_last_paragraph(b, off);
        assert(c + (k - 1) * CHUNK_LIMIT < b.len()) by (nonlinear_arith)
            requires
                c <= off + CHUNK_LIMIT,
                off + k * CHUNK_LIMIT < b.len(),
                k >= 1,
        ;
        lemma_chunks_from_cuts(b, c, (k - 1) as nat);
        lemma_chunks_from_well_cut(b, off, k);
        lemma_chunks_from_well_cut(b, c, (k - 1) as nat);
        let all = chunks_from(b, off, k);
        let rest = chunks_from(b, c, (k - 1) as nat);
        let x = b.subrange(off, c);
        assert(all == seq![x] + rest);
        assert forall|i: int| 0 <= i < k implies cut_at_last_paragraph(
            b,
            off + chunk_start(all, i),
            (#[trigger] all[i]).len() as int,
        ) by {
            if i == 0 {
                assert(all.take(0) =~= Seq::<Seq<u8>>::empty());
                assert(all[0] == x);
            } else {
                assert(all[i] == rest[i - 1]);
                let tk = all.take(i);
                assert(tk.len() > 0);
                assert(tk[0] == x);
                assert(tk.drop_first() =~= rest.take(i - 1));
                assert(tk.flatten() == tk[0] + tk.drop_first().flatten());
                assert(chunk_start(all, i) == (c - off) + chunk_start(rest, i - 1));
            }
        }
    }
}

/// Every chunk but the last is cut at the last paragraph boundary within `CHUNK_LIMIT`
/// bytes of its start: it ends just after the last newline before the greatest character
/// boundary within the limit, or at that boundary when there is no newline before it; it is
/// never empty, and no newline is left between its end and the limit.
pub proof fn lemma_chunks_cut_at_last_paragraph(s: &str)
    ensures
        forall|i: int|
            0 <= i < chunks_spec(s.spec_bytes()).len() - 1 ==> cut_at_last_paragraph(
                s.spec_bytes(),
                chunk_start(chunks_spec(s.spec_bytes()), i),
                (#[trigger] chunks_spec(s.spec_bytes())[i]).len() as int,
            ),
{
    let b = s.spec_bytes();
    encode_utf8_valid_utf8(s@);
    is_char_boundary_start_end_of_seq(b);
    if b.len() > CHUNK_LIMIT {
        let n = chunk_count(b.len());
        assert(n >= 2 && (n - 1) * CHUNK_LIMIT < b.len()) by (nonlinear_arith)
            requires
                n == (b.len() + CHUNK_LIMIT - 1) / (CHUNK_LIMIT as int),
                b.len() > CHUNK_LIMIT,
        ;
        lemma_chunks_from_cuts(b, 0, (n - 1) as nat);
        lemma_chunks_from_shape(b, 0, (n - 1) as nat);
    }
}

/// The bytes `text[lo..hi]` as a string slice.
fn slice_str<'a>(text: &'a str, lo: usize, hi: usize) -> (r: &'a str)
    requires
        lo <= hi <= text.spec_bytes().len(),
        is_char_boundary(text.spec_bytes(), lo as int),
        is_char_boundary(text.spec_bytes(), hi as int),
    ensures
        r.spec_bytes() == text.spec_bytes().subrange(lo as int, hi as int),
{
    let ghost b = text.spec_bytes();
    proof {
        encode_utf8_valid_utf8(text@);
        lemma_boundary_in_prefix(b, lo as int, hi as int);
    }
    let (head, _) = text.split_at(hi);
    assert(head.spec_bytes() =~= b.subrange(0, hi as int));
    let (_, piece) = head.split_at(lo);
    assert(piece.spec_bytes() =~= b.subrange(lo as int, hi as int));
    piece
}

/// Splits text into chunks of roughly `CHUNK_LIMIT` bytes, cutting just after the last
/// newline (a paragraph boundary) that fits, or at the limit when none does. The last chunk
/// holds whatever remains, whatever its size.
pub fn chunk_plaintext(text: &str) -> (r: Vec<&str>)
    ensures
        byte_views(r@) == chunks_spec(text.spec_bytes()),
        byte_views(r@).flatten() == text.spec_bytes(),
{
    proof {
        lemma_chunks_concat(text);
    }
    let ghost b = text.spec_bytes();
    let bytes = text.as_bytes();
    let len = bytes.len();
    if len <= CHUNK_LIMIT {
        let mut r: Vec<&str> = Vec::new();
        r.push(text);
        assert(byte_views(r@) =~= seq![b]);
        return r;
    }
    proof {
        encode_utf8_valid_utf8(text@);
        is_char_boundary_start_end_of_seq(b);
    }
    let n_chunks = len / CHUNK_LIMIT + if len % CHUNK_LIMIT != 0 {
        1
    } else {
        0
    };
    assert(n_chunks == chunk_count(len as nat)) by (nonlinear_arith)
        requires
            n_chunks == len / CHUNK_LIMIT + if len % CHUNK_LIMIT != 0 {
                1int
            } else {
                0int
            },
            CHUNK_LIMIT == 5000,
    ;
    let mut chunks: Vec<&str> = Vec::new();
    let mut offset: usize = 0;
    let mut k: usize = 0;
    while k < n_chunks - 1
        invariant
            bytes@ == b,
            b == text.spec_bytes(),
            len == b.len(),
            valid_utf8(b),
            is_char_boundary(b, len as int),
            k <= n_chunks - 1,
            n_chunks >= 2,
            offset <= len,
            is_char_boundary(b, offset as int),
            chunks_spec(b) == byte_views(chunks@) + chunks_from(
                b,
                offset as int,
                (n_chunks - 1 - k) as nat,
            ),
        decreases n_chunks - 1 - k,
    {
        proof {
            lemma_next_cut(b, offset as int);
            lemma_floor_boundary(b, offset + CHUNK_LIMIT, offset as int);
        }
        // the greatest character boundary within the limit
        let mut target: usize = if len - offset <= CHUNK_LIMIT {
            len
        } else {
            offset + CHUNK_LIMIT
        };
        assert(floor_boundary(b, target as int) == floor_boundary(b, offset + CHUNK_LIMIT));
        while target > offset && !text.is_char_boundary(target)
            invariant
                floor_boundary(b, target as int) == floor_boundary(b, offset + CHUNK_LIMIT),
                offset <= target <= len,
                b == text.spec_bytes(),
                is_char_boundary(b, len as int),
                len == b.len(),
                valid_utf8(b),
                is_char_boundary(b, offset as int),
            decreases target,
        {
            target = target - 1;
        }
        let ghost t = floor_boundary(b, offset + CHUNK_LIMIT);
        assert(target as int == t);
        // the last newline before it
        let mut q = target;
        while q > offset && bytes[q - 1] != 10u8
            invariant
                offset <= q <= target <= len,
                bytes@ == b,
                len == b.len(),
                last_newline(b, offset as int, target as int) == last_newline(
                    b,
                    offset as int,
                    q as int,
                ),
            decreases q,
        {
            q = q - 1;
        }
        let cut = if q > offset {
            q
        } else {
            target
        };
        assert(cut == next_cut(b, offset as int));
        let piece = slice_str(text, offset, cut);
        let ghost rest = chunks_from(b, offset as int, (n_chunks - 1 - k) as nat);
        assert(rest =~= seq![b.subrange(offset as int, cut as int)] + chunks_from(
            b,
            cut as int,
            (n_chunks - 1 - (k + 1)) as nat,
        ));
        let ghost before = byte_views(chunks@);
        chunks.push(piece);
        assert(byte_views(chunks@) =~= before.push(piece.spec_bytes()));
        assert(byte_views(chunks@) + chunks_from(b, cut as int, (n_chunks - 1 - (k + 1)) as nat)
            =~= before + rest);
        offset = cut;
        k = k + 1;
    }
    let last = slice_str(text, offset, len);
    let ghost before = byte_views(chunks@);
    chunks.push(last);
    assert(byte_views(chunks@) =~= before.push(last.spec_bytes()));
    assert(byte_views(chunks@) =~= chunks_spec(b));
    chunks
}

/// Whether a translation of `input_len` bytes that came back with `output_len` bytes grew
/// more than `MAX_EXPANSION` times (an empty input counts as one byte).
pub fn expansion_exceeded(output_len: usize, input_len: usize) -> (b: bool)
    ensures
        b == (output_len > MAX_EXPANSION * (if input_len == 0 {
            1
        } else {
            input_len as int
        })),
{
    let base: u128 = if input_len == 0 {
        1
    } else {
        input_len as u128
    };
    assert(base <= usize::MAX);
    let factor: u128 = MAX_EXPANSION as u128;
    assert(factor == 3);
    (output_len as u128) > factor * base
}

/// The request for the translation of one chunk.
pub open spec fn translate_prompt_spec(language: Seq<char>, chunk: Seq<char>) -> Seq<char> {
    "Translate provided text to "@ + language + ": ```"@ + chunk + "```. Output as a codeblock."@
}

pub fn translate_prompt(language: &str, chunk: &str) -> (q: String)
    ensures
        q@ == translate_prompt_spec(language@, chunk@),
{
    let mut v = chars_of("Translate provided text to ");
    append_chars(&mut v, &chars_of(language));
    append_chars(&mut v, &chars_of(": ```"));
    append_chars(&mut v, &chars_of(chunk));
    append_chars(&mut v, &chars_of("```. Output as a codeblock."));
    string_of(&v)
}

/// A translated section: the translated chunks joined by newlines, each line a paragraph,
/// under the source section's title.
pub fn translated_section_md(source_md: &str, parts: &Vec<String>) -> (out: String)
    ensures
        out@ == section_md(
            first_heading(lines(source_md@)),
            lines(join_by(parts@.map_values(|s: String| s@), seq!['\n'])),
        ),
{
    let mut text: Vec<char> = Vec::new();
    let ghost ps = parts@.map_values(|s: String| s@);
    let mut i: usize = 0;
    while i < parts.len()
        invariant
            i <= parts.len(),
            ps == parts@.map_values(|s: String| s@),
            text@ == join_by(ps.take(i as int), seq!['\n']),
        decreases parts.len() - i,
    {
        if i > 0 {
            text.push('\n');
        }
        append_chars(&mut text, &chars_of(parts[i].as_str()));
        assert(ps.take(i + 1).drop_last() =~= ps.take(i as int));
        assert(ps.take(i + 1).last() == parts@[i as int]@);
        i = i + 1;
    }
    assert(ps.take(parts.len() as int) =~= ps);
    rebuild_section(source_md, string_of(&text).as_str())
}

/// Where the local translation server listens.
pub const OLLAMA_BASE: &'static str = "http://localhost:11434";

/// The translation model.
pub const OLLAMA_MODEL: &'static str = "translategemma:4b";

/// The model's name without its tag.
pub const OLLAMA_MODEL_BASE: &'static str = "translategemma";

/// Whether a model name is the translation model, or another tag of it.
pub open spec fn model_matches(name: Seq<char>) -> bool {
    name == OLLAMA_MODEL@ || starts_with(name, OLLAMA_MODEL_BASE@ + seq![':'])
}

/// Whether the server lists the translation model (any tag of it) among its models.
pub fn model_listed(names: &Vec<String>) -> (b: bool)
    ensures
        b == exists|i: int| 0 <= i < names.len() && model_matches(#[trigger] names@[i]@),
{
    let model = chars_of(OLLAMA_MODEL);
    let mut prefix = chars_of(OLLAMA_MODEL_BASE);
    prefix.push(':');
    let mut i: usize = 0;
    while i < names.len()
        invariant
            i <= names.len(),
            model@ == OLLAMA_MODEL@,
            prefix@ == OLLAMA_MODEL_BASE@ + seq![':'],
            forall|j: int| 0 <= j < i ==> !model_matches(#[trigger] names@[j]@),
        decreases names.len() - i,
    {
        let n = chars_of(names[i].as_str());
        assert(n@.skip(0) =~= n@);
        let same = n.len() == model.len() && matches_at(&n, 0, &model);
        assert(same ==> n@.take(model@.len() as int) =~= n@);
        assert(n@ == model@ ==> n@.take(model@.len() as int) =~= n@);
        if same || matches_at(&n, 0, &prefix) {
            assert(model_matches(names@[i as int]@));
            return true;
        }
        i = i + 1;
    }
    false
}


// ---------------------------------------------------------------------------
// Translating a section chunk by chunk
// ---------------------------------------------------------------------------

/// What came back from asking for the translation of one chunk.
pub enum ChunkReply {
    /// Asking the model failed.
    AskFailed,
    /// The answer held no code block.
    NoCodeBlock,
    /// The code block of the answer: the translated chunk.
    CodeBlock(String),
}

/// Why the translation of a section stopped, at which chunk.
#[derive(Clone, Copy, Debug, PartialEq, Eq, Structural)]
pub enum TranslateFailure {
    AskFailed { chunk: usize },
    NoCodeBlock { chunk: usize },
    /// The translation grew more than `MAX_EXPANSION` times: its size and the chunk's, in bytes.
    Expanded { chunk: usize, output: usize, input: usize },
}

/// Whether `output` bytes are more than `MAX_EXPANSION` times `input` bytes (an empty input
/// counts as one byte).
pub open spec fn expanded(output: int, input: int) -> bool {
    output > MAX_EXPANSION * (if input == 0 {
        1
    } else {
        input
    })
}

/// The translation of a section under way: the chunks of its text, the translations of
/// the first of them, in order, and the failure that stopped it, if one did. It asks for one
/// chunk at a time; after a chunk fails it asks for nothing more.
pub struct SectionTranslation<'a> {
    chunks: Vec<&'a str>,
    parts: Vec<String>,
    failed: Option<TranslateFailure>,
}

impl<'a> SectionTranslation<'a> {
    /// The chunks of the text.
    pub closed spec fn chunk_seq(&self) -> Seq<&'a str> {
        self.chunks@
    }

    /// The translations so far.
    pub closed spec fn part_seq(&self) -> Seq<Seq<char>> {
        self.parts@.map_values(|s: String| s@)
    }

    /// The failure that stopped the translation, if one did.
    pub closed spec fn failure(&self) -> Option<TranslateFailure> {
        self.failed
    }

    pub closed spec fn wf(&self) -> bool {
        self.parts@.len() <= self.chunks@.len()
    }

    /// A translation of `text` not yet begun: the text cut by `chunk_plaintext`.
    pub fn new(text: &'a str) -> (r: Self)
        ensures
            r.wf(),
            byte_views(r.chunk_seq()) == chunks_spec(text.spec_bytes()),
            r.part_seq() == Seq::<Seq<char>>::empty(),
            r.failure() is None,
    {
        let chunks = chunk_plaintext(text);
        let r = SectionTranslation { chunks, parts: Vec::new(), failed: None };
        assert(r.part_seq() =~= Seq::<Seq<char>>::empty());
        r
    }

    /// How many chunks the text was cut into.
    pub fn chunk_total(&self) -> (n: usize)
        ensures
            n == self.chunk_seq().len(),
    {
        self.chunks.len()
    }

    /// Whether every chunk is translated.
    pub fn is_done(&self) -> (b: bool)
        ensures
            b == (self.part_seq().len() == self.chunk_seq().len()),
    {
        assert(self.part_seq().len() == self.parts@.len());
        self.parts.len() == self.chunks.len()
    }

    /// The failure that stopped the translation, if one did.
    pub fn failure_of(&self) -> (r: Option<TranslateFailure>)
        ensures
            r == self.failure(),
    {
        self.failed
    }

    /// The request for the next chunk to translate: none once a chunk has failed or every
    /// chunk is translated.
    pub fn next_prompt(&self, language: &str) -> (r: Option<String>)
        requires
            self.wf(),
        ensures
            self.failure() is Some ==> r is None,
            self.failure() is None && self.part_seq().len() < self.chunk_seq().len() ==> (r matches Some(q)
                && q@ == translate_prompt_spec(
                language@,
                self.chunk_seq()[self.part_seq().len() as int]@,
            )),
            self.part_seq().len() == self.chunk_seq().len() ==> r is None,
    {
        assert(self.part_seq().len() == self.parts@.len());
        if self.failed.is_some() {
            return None;
        }
        if self.parts.len() < self.chunks.len() {
            Some(translate_prompt(language, self.chunks[self.parts.len()]))
        } else {
            None
        }
    }

    /// Takes the reply for the next chunk: its translation is kept, unless asking failed, the
    /// answer held no code block, or the translation grew more than `MAX_EXPANSION` times
    /// the chunk; then the translation stops with that failure, recorded, and keeps nothing.
    pub fn on_reply(&mut self, reply: ChunkReply) -> (r: Result<(), TranslateFailure>)
        requires
            old(self).wf(),
            old(self).failure() is None,
            old(self).part_seq().len() < old(self).chunk_seq().len(),
        ensures
            final(self).wf(),
            final(self).chunk_seq() == old(self).chunk_seq(),
            match r {
                Ok(()) => final(self).failure() is None,
                Err(f) => final(self).failure() == Some(f),
            },
            ({
                let i = old(self).part_seq().len();
                let input = old(self).chunk_seq()[i as int].spec_bytes().len() as usize;
                match reply {
                    ChunkReply::AskFailed => r == Err::<(), TranslateFailure>(
                        TranslateFailure::AskFailed { chunk: i as usize },
                    ) && final(self).part_seq() == old(self).part_seq(),
                    ChunkReply::NoCodeBlock => r == Err::<(), TranslateFailure>(
                        TranslateFailure::NoCodeBlock { chunk: i as usize },
                    ) && final(self).part_seq() == old(self).part_seq(),
                    ChunkReply::CodeBlock(t) => if expanded(
                        encode_utf8(t@).len() as usize as int,
                        input as int,
                    ) {
                        r == Err::<(), TranslateFailure>(
                            TranslateFailure::Expanded {
                                chunk: i as usize,
                                output: encode_utf8(t@).len() as usize,
                                input,
                            },
                        ) && final(self).part_seq() == old(self).part_seq()
                    } else {
                        r == Ok::<(), TranslateFailure>(()) && final(self).part_seq() == old(
                            self,
                        ).part_seq().push(t@)
                    },
                }
            }),
    {
        let i = self.parts.len();
        assert(self.part_seq().len() == i);
        match reply {
            ChunkReply::AskFailed => {
                let f = TranslateFailure::AskFailed { chunk: i };
                self.failed = Some(f);
                Err(f)
            },
            ChunkReply::NoCodeBlock => {
                let f = TranslateFailure::NoCodeBlock { chunk: i };
                self.failed = Some(f);
                Err(f)
            },
            ChunkReply::CodeBlock(t) => {
                let output = t.as_str().len();
                let input = self.chunks[i].len();
                if expansion_exceeded(output, input) {
                    let f = TranslateFailure::Expanded { chunk: i, output, input };
                    self.failed = Some(f);
                    Err(f)
                } else {
                    let ghost before = self.part_seq();
                    let ghost tv = t@;
                    self.parts.push(t);
                    assert(self.part_seq() =~= before.push(tv));
                    Ok(())
                }
            },
        }
    }

    /// The translated section, under the title of the source section, once every chunk is
    /// translated.
    pub fn section_md(&self, source_md: &str) -> (out: String)
        requires
            self.part_seq().len() == self.chunk_seq().len(),
        ensures
            out@ == section_md(
                first_heading(lines(source_md@)),
                lines(join_by(self.part_seq(), seq!['\n'])),
            ),
    {
        translated_section_md(source_md, &self.parts)
    }
}

} // verus!
