//! Sets of section numbers and the `--range` syntax that selects them.
use std::collections::BTreeSet;
use vstd::laws_cmp::group_laws_cmp;
use vstd::laws_cmp::obeys_cmp;
use vstd::prelude::*;
use vstd::std_specs::btree::{group_btree_axioms, increasing_seq};
use vstd::std_specs::cmp::OrdSpec;

use crate::text::{lemma_split_join, digit_prefix_len, lemma_digit_prefix_len_at, is_digit_exec, chars_of, string_of, trim, trim_chars, split, split_chars, views, all_digits, is_digit, parse_u32, parse_u32_spec, starts_with, decimal, push_decimal, slice_chars};

verus! {

broadcast use group_btree_axioms, group_laws_cmp;

/// How a selection of sections is held.
enum Selection {
    /// Every section.
    All,
    /// These numbers, together with every number from `from` on and every number up to
    /// `upto`, where those are given.
    Picked { numbers: BTreeSet<u32>, from: Option<u32>, upto: Option<u32> },
}

/// Every number from `a` on, if there is such a bound.
pub open spec fn from_set(from: Option<u32>) -> Set<u32> {
    match from {
        None => Set::empty(),
        Some(a) => span(a, u32::MAX),
    }
}

/// Every number up to `b`, if there is such a bound.
pub open spec fn upto_set(upto: Option<u32>) -> Set<u32> {
    match upto {
        None => Set::empty(),
        Some(b) => span(0, b),
    }
}

/// The numbers that a picked selection takes.
pub open spec fn picked(numbers: Set<u32>, from: Option<u32>, upto: Option<u32>) -> Set<u32> {
    numbers.union(from_set(from)).union(upto_set(upto))
}

/// A set of section numbers, or every section.
pub struct PageRange(Selection);

impl View for PageRange {
    type V = Option<Set<u32>>;

    closed spec fn view(&self) -> Option<Set<u32>> {
        match self.0 {
            Selection::All => None,
            Selection::Picked { numbers, from, upto } => Some(picked(numbers@, from, upto)),
        }
    }
}

/// `u32` keys order the way `BTreeSet` needs them to.
proof fn lemma_u32_ordered()
    ensures
        obeys_cmp::<u32>(),
{
}

/// The least and the greatest element of a nonempty set of numbers.
pub open spec fn is_bounds(s: Set<u32>, lo: u32, hi: u32) -> bool {
    &&& s.contains(lo)
    &&& s.contains(hi)
    &&& forall|x: u32| s.contains(x) ==> lo <= x && x <= hi
}

/// The first and last element of a set, walking it in order.
fn set_bounds(set: &BTreeSet<u32>) -> (r: Option<(u32, u32)>)
    ensures
        r is None <==> set@.len() == 0,
        r matches Some(b) ==> is_bounds(set@, b.0, b.1),
        set@.finite(),
{
    let mut first: Option<u32> = None;
    let mut last: u32 = 0;
    let ghost mut seen: Seq<u32> = Seq::empty();
    for x in it: set.iter()
        invariant
            it.seq().unref().to_set() == set@,
            it.seq().len() == set@.len(),
            set@.finite(),
            increasing_seq(it.seq()),
            seen == it.seq().unref().take(it.index()),
            it.index() == it.seq().len() ==> seen.to_set() == set@,
            first is None <==> seen.len() == 0,
            seen.len() > 0 ==> first == Some(seen[0]) && last == seen.last(),
            forall|i: int| 0 <= i < seen.len() ==> first->0 <= #[trigger] seen[i] && seen[i] <= last,
    {
        if first.is_none() {
            first = Some(*x);
        }
        last = *x;
        proof {
            seen = seen.push(*x);
        }
        assert(obeys_cmp::<u32>());
        assert(obeys_cmp::<&u32>());
        assert(increasing_seq(it.seq()));
        assert(it.index() > 0 ==> OrdSpec::cmp_spec(&it.seq()[it.index() - 1], &it.seq()[it.index()]) is Less);
        assert(it.index() > 0 ==> *it.seq()[it.index() - 1] < *it.seq()[it.index()]);
        assert(seen =~= it.seq().unref().take(it.index() + 1));
        assert(it.index() + 1 == it.seq().len() ==> seen =~= it.seq().unref());
    }
    match first {
        None => {
            proof {
                if set@.len() > 0 {
                    let y = set@.choose();
                    assert(seen.to_set().contains(y));
                }
            }
            None
        },
        Some(lo) => {
            proof {
                assert forall|x: u32| set@.contains(x) implies lo <= x && x <= last by {
                    assert(seen.to_set().contains(x));
                    assert(seen.contains(x));
                }
                assert(seen.to_set().contains(seen[0]));
                assert(seen.to_set().contains(seen.last()));
                assert(set@.contains(lo));
            }
            Some((lo, last))
        },
    }
}

impl PageRange {
    /// Every section.
    pub fn all() -> (r: Self)
        ensures
            r@ is None,
    {
        PageRange(Selection::All)
    }

    pub fn is_all(&self) -> (b: bool)
        ensures
            b == (self@ is None),
    {
        match &self.0 {
            Selection::All => true,
            _ => false,
        }
    }

    pub fn contains(&self, n: u32) -> (b: bool)
        ensures
            b == match self@ {
                None => true,
                Some(s) => s.contains(n),
            },
    {
        proof {
            lemma_u32_ordered();
        }
        match &self.0 {
            Selection::All => true,
            Selection::Picked { numbers, from, upto } => {
                let in_from = match from {
                    Some(a) => *a <= n,
                    None => false,
                };
                let in_upto = match upto {
                    Some(b) => n <= *b,
                    None => false,
                };
                numbers.contains(&n) || in_from || in_upto
            },
        }
    }

    /// Whether the range takes section `n`.
    pub open spec fn selects(&self, n: u32) -> bool {
        match self@ {
            None => true,
            Some(s) => s.contains(n),
        }
    }

    /// The numbers that the range takes, in their order.
    pub fn select(&self, nums: &Vec<u32>) -> (r: Vec<u32>)
        ensures
            r@ == nums@.filter(|n: u32| self.selects(n)),
    {
        let ghost pred = |n: u32| self.selects(n);
        let mut v: Vec<u32> = Vec::new();
        let mut i: usize = 0;
        while i < nums.len()
            invariant
                i <= nums.len(),
                pred == (|n: u32| self.selects(n)),
                v@ == nums@.take(i as int).filter(pred),
            decreases nums.len() - i,
        {
            reveal(Seq::filter);
            assert(nums@.take(i + 1).drop_last() =~= nums@.take(i as int));
            assert(nums@.take(i + 1).last() == nums@[i as int]);
            if self.contains(nums[i]) {
                v.push(nums[i]);
            }
            i = i + 1;
        }
        assert(nums@.take(nums.len() as int) =~= nums@);
        v
    }

    /// Exactly the numbers in `nums`.
    pub fn from_sorted(nums: &[u32]) -> (r: Self)
        ensures
            r@ == Some(nums@.to_set()),
    {
        let mut set: BTreeSet<u32> = BTreeSet::new();
        let mut i: usize = 0;
        while i < nums.len()
            invariant
                i <= nums.len(),
                set@ == nums@.take(i as int).to_set(),
            decreases nums.len() - i,
        {
            proof {
                lemma_u32_ordered();
            }
            set.insert(nums[i]);
            assert(nums@.take(i + 1) =~= nums@.take(i as int).push(nums@[i as int]));
            proof {
                nums@.take(i as int).lemma_push_to_set_commute(nums@[i as int]);
            }
            assert(set@ =~= nums@.take(i + 1).to_set());
            i = i + 1;
        }
        assert(nums@.take(nums.len() as int) =~= nums@);
        assert(picked(set@, None, None) =~= set@);
        PageRange(Selection::Picked { numbers: set, from: None, upto: None })
    }
}


/// The least element of a set of numbers.
pub open spec fn set_min(s: Set<u32>) -> u32 {
    choose|m: u32| s.contains(m) && forall|x: u32| s.contains(x) ==> m <= x
}

/// The greatest element of a set of numbers.
pub open spec fn set_max(s: Set<u32>) -> u32 {
    choose|m: u32| s.contains(m) && forall|x: u32| s.contains(x) ==> x <= m
}

/// Whether the set holds every number from `lo` to `hi`.
pub open spec fn is_run(s: Set<u32>, lo: u32, hi: u32) -> bool {
    forall|x: u32| lo <= x && x <= hi ==> #[trigger] s.contains(x)
}

/// How a selection is named in file names: nothing for every section, `_N` for one section,
/// `_A..=B` for a contiguous run, `_[A,B]` (least and greatest) otherwise.
pub open spec fn label_spec(r: Option<Set<u32>>) -> Seq<char> {
    match r {
        None => seq![],
        Some(s) => if s == Set::<u32>::empty() {
            seq![]
        } else {
            let lo = set_min(s);
            let hi = set_max(s);
            if is_run(s, lo, hi) {
                run_label(lo, hi)
            } else {
                seq!['_', '['] + decimal(lo as nat) + seq![','] + decimal(hi as nat) + seq![']']
            }
        },
    }
}

proof fn lemma_bounds_are_extremes(s: Set<u32>, lo: u32, hi: u32)
    requires
        is_bounds(s, lo, hi),
    ensures
        set_min(s) == lo,
        set_max(s) == hi,
        s != Set::<u32>::empty(),
{
    let m = set_min(s);
    assert(s.contains(lo) && forall|x: u32| s.contains(x) ==> lo <= x);
    assert(s.contains(m) && forall|x: u32| s.contains(x) ==> m <= x);
    let n = set_max(s);
    assert(s.contains(hi) && forall|x: u32| s.contains(x) ==> x <= hi);
    assert(s.contains(n) && forall|x: u32| s.contains(x) ==> x <= n);
    assert(!Set::<u32>::empty().contains(lo));
}

/// The label of a contiguous run `lo..=hi`.
pub open spec fn run_label(lo: u32, hi: u32) -> Seq<char> {
    if lo == hi {
        seq!['_'] + decimal(lo as nat)
    } else {
        seq!['_'] + decimal(lo as nat) + seq!['.', '.', '='] + decimal(hi as nat)
    }
}

fn push_run_label(v: &mut Vec<char>, lo: u32, hi: u32)
    ensures
        final(v)@ == old(v)@ + run_label(lo, hi),
{
    v.push('_');
    push_decimal(v, lo as u64);
    if lo != hi {
        v.push('.');
        v.push('.');
        v.push('=');
        push_decimal(v, hi as u64);
    }
    assert(final(v)@ =~= old(v)@ + run_label(lo, hi));
}

/// Whether the set holds every number `x` with `lo <= x < end`. It stops at the first number
/// missing, so it looks up at most one more number than the set holds.
fn covers(set: &BTreeSet<u32>, lo: u64, end: u64) -> (b: bool)
    requires
        end <= u32::MAX as u64 + 1,
    ensures
        b == (forall|x: u32| lo <= x && x < end ==> #[trigger] set@.contains(x)),
{
    proof {
        lemma_u32_ordered();
    }
    let mut x: u64 = lo;
    while x < end
        invariant
            lo <= x,
            end <= u32::MAX as u64 + 1,
            forall|y: u32| lo <= y && y < x ==> #[trigger] set@.contains(y),
        decreases end - x,
    {
        let n = x as u32;
        if !set.contains(&n) {
            return false;
        }
        x = x + 1;
    }
    true
}

/// The least and greatest number of a picked selection, if it takes any.
fn picked_bounds(numbers: &BTreeSet<u32>, from: Option<u32>, upto: Option<u32>) -> (r: Option<(u32, u32)>)
    ensures
        r is None <==> picked(numbers@, from, upto).is_empty(),
        r matches Some(b) ==> is_bounds(picked(numbers@, from, upto), b.0, b.1),
{
    let ghost u = picked(numbers@, from, upto);
    let nb = set_bounds(numbers);
    if nb.is_none() && from.is_none() && upto.is_none() {
        proof {
            vstd::set_lib::lemma_set_empty_equivalency_len(numbers@);
            assert(u =~= Set::<u32>::empty());
        }
        return None;
    }
    let lo: u32 = match upto {
        Some(_) => 0,
        None => match from {
            Some(a) => match nb {
                Some((l, _)) => if a < l {
                    a
                } else {
                    l
                },
                None => a,
            },
            None => match nb {
                Some((l, _)) => l,
                None => 0,
            },
        },
    };
    let hi: u32 = match from {
        Some(_) => u32::MAX,
        None => match upto {
            Some(b) => match nb {
                Some((_, h)) => if b < h {
                    h
                } else {
                    b
                },
                None => b,
            },
            None => match nb {
                Some((_, h)) => h,
                None => 0,
            },
        },
    };
    proof {
        if nb is None {
            vstd::set_lib::lemma_set_empty_equivalency_len(numbers@);
            assert(forall|x: u32| !numbers@.contains(x));
        }
        assert(u.contains(lo));
        assert(u.contains(hi));
        assert forall|x: u32| u.contains(x) implies lo <= x && x <= hi by {}
    }
    Some((lo, hi))
}

/// Whether a picked selection holds every number from its least `lo` to its greatest `hi`:
/// whether its numbers fill the stretch that neither bound covers.
fn picked_is_run(numbers: &BTreeSet<u32>, from: Option<u32>, upto: Option<u32>, lo: u32, hi: u32) -> (b: bool)
    requires
        is_bounds(picked(numbers@, from, upto), lo, hi),
    ensures
        b == is_run(picked(numbers@, from, upto), lo, hi),
{
    let ghost u = picked(numbers@, from, upto);
    proof {
        if upto is Some {
            assert(u.contains(0));
        }
        if from is Some {
            assert(u.contains(u32::MAX));
        }
    }
    let start: u64 = match upto {
        Some(b) => b as u64 + 1,
        None => lo as u64,
    };
    let end: u64 = match from {
        Some(a) => a as u64,
        None => hi as u64 + 1,
    };
    let r = covers(numbers, start, end);
    proof {
        if r {
            assert forall|x: u32| lo <= x && x <= hi implies #[trigger] u.contains(x) by {
                if start <= x && x < end {
                    assert(numbers@.contains(x));
                }
            }
        } else {
            let x = choose|x: u32| !(start <= x && x < end ==> #[trigger] numbers@.contains(x));
            assert(!u.contains(x));
            assert(lo <= x && x <= hi);
        }
    }
    r
}

impl PageRange {
    /// The selection as it appears in an output file name (the `Display` form).
    pub fn label(&self) -> (out: String)
        ensures
            out@ == label_spec(self@),
    {
        let mut v: Vec<char> = Vec::new();
        match &self.0 {
            Selection::All => {},
            Selection::Picked { numbers, from, upto } => {
                match picked_bounds(numbers, *from, *upto) {
                    None => {
                        assert(picked(numbers@, *from, *upto) =~= Set::<u32>::empty());
                    },
                    Some((lo, hi)) => {
                        proof {
                            lemma_bounds_are_extremes(picked(numbers@, *from, *upto), lo, hi);
                        }
                        if picked_is_run(numbers, *from, *upto, lo, hi) {
                            push_run_label(&mut v, lo, hi);
                        } else {
                            v.push('_');
                            v.push('[');
                            push_decimal(&mut v, lo as u64);
                            v.push(',');
                            push_decimal(&mut v, hi as u64);
                            v.push(']');
                        }
                        assert(v@ =~= label_spec(self@));
                    },
                }
            },
        }
        string_of(&v)
    }
}


// ---------------------------------------------------------------------------
// `--range` syntax: a comma-separated list of numbers and ranges
// ---------------------------------------------------------------------------

/// Why a `--range` list was refused.
#[derive(Clone, Copy, Debug, PartialEq, Eq, Structural)]
pub enum RangeErrorKind {
    /// A part is neither a number nor `A..B`, `A..=B`, `A..`, `..B`, `..=B`.
    Invalid,
    /// A part selects nothing (`A..0`, or an end below its start).
    EmptyRange,
    /// A part with neither a start nor an end: `..` or `..=`.
    OpenEnded,
    /// A number in a range part does not fit in 32 bits.
    NumberTooLarge,
    /// The list as a whole selects no section.
    NothingSelected,
}

/// A refused `--range` list: the reason, and the part (or the whole list) it concerns.
pub struct RangeError {
    pub kind: RangeErrorKind,
    pub text: String,
}

/// What one trimmed part of a `--range` list stands for.
pub enum Part {
    Skip,
    Single(u32),
    Span(u32, u32),
    /// `A..`: every number from `A` on.
    From(u32),
    /// `..B` or `..=B`: every number up to the end.
    UpTo(u32),
    Fail(RangeErrorKind),
}

/// The pieces of `A..B` or `A..=B` (each of `A` and `B` possibly empty): start digits,
/// whether the end is inclusive, end digits.
pub open spec fn range_syntax(p: Seq<char>) -> Option<(Seq<char>, bool, Seq<char>)> {
    let a = digit_prefix_len(p);
    let rest = p.skip(a);
    if starts_with(rest, seq!['.', '.']) {
        let r2 = rest.skip(2);
        let incl = r2.len() > 0 && r2[0] == '=';
        let b = if incl {
            r2.drop_first()
        } else {
            r2
        };
        if all_digits(b) {
            Some((p.take(a), incl, b))
        } else {
            None
        }
    } else {
        None
    }
}

/// An optional number: `Some(None)` for no digits, `None` when the digits overflow.
pub open spec fn optional_number(d: Seq<char>) -> Option<Option<u32>> {
    if d.len() == 0 {
        Some(None)
    } else {
        match parse_u32_spec(d) {
            Some(n) => Some(Some(n)),
            None => None,
        }
    }
}

/// The meaning of one trimmed part.
pub open spec fn part_spec(p: Seq<char>) -> Part {
    if p.len() == 0 {
        Part::Skip
    } else if parse_u32_spec(p) is Some {
        Part::Single(parse_u32_spec(p)->0)
    } else {
        match range_syntax(p) {
            None => Part::Fail(RangeErrorKind::Invalid),
            Some((a, incl, b)) => match optional_number(a) {
                None => Part::Fail(RangeErrorKind::NumberTooLarge),
                Some(since) => match optional_number(b) {
                    None => Part::Fail(RangeErrorKind::NumberTooLarge),
                    Some(end) => match end {
                        None => match since {
                            None => Part::Fail(RangeErrorKind::OpenEnded),
                            Some(st) => Part::From(st),
                        },
                        Some(e) => if !incl && e == 0 {
                            Part::Fail(RangeErrorKind::EmptyRange)
                        } else {
                            let until: u32 = if incl {
                                e
                            } else {
                                (e - 1) as u32
                            };
                            match since {
                                None => Part::UpTo(until),
                                Some(st) => if until < st {
                                    Part::Fail(RangeErrorKind::EmptyRange)
                                } else {
                                    Part::Span(st, until)
                                },
                            }
                        },
                    },
                },
            },
        }
    }
}

/// The numbers from `a` to `b`, both included.
pub open spec fn span(a: u32, b: u32) -> Set<u32> {
    Set::new(|x: u32| a <= x && x <= b)
}

/// The numbers that a list of parts selects, or the first part that is refused with why.
pub open spec fn selection(ps: Seq<Seq<char>>) -> Result<Set<u32>, (RangeErrorKind, Seq<char>)>
    decreases ps.len(),
{
    if ps.len() == 0 {
        Ok(Set::empty())
    } else {
        match selection(ps.drop_last()) {
            Err(e) => Err(e),
            Ok(set) => {
                let p = trim(ps.last());
                match part_spec(p) {
                    Part::Skip => Ok(set),
                    Part::Single(n) => Ok(set.insert(n)),
                    Part::Span(a, b) => Ok(set.union(span(a, b))),
                    Part::From(a) => Ok(set.union(span(a, u32::MAX))),
                    Part::UpTo(b) => Ok(set.union(span(0, b))),
                    Part::Fail(k) => Err((k, p)),
                }
            },
        }
    }
}

/// What `parse_range` gives for a `--range` list: the union of what its parts select, or
/// the first part refused; a list that selects nothing is refused as a whole.
pub open spec fn parse_range_spec(s: Seq<char>) -> Result<Set<u32>, (RangeErrorKind, Seq<char>)> {
    match selection(split(s, ',')) {
        Err(e) => Err(e),
        Ok(set) => if set.is_empty() {
            Err((RangeErrorKind::NothingSelected, s))
        } else {
            Ok(set)
        },
    }
}

/// Whether every character of `v[from..]` is a decimal digit.
fn all_digits_from(v: &Vec<char>, from: usize) -> (b: bool)
    requires
        from <= v.len(),
    ensures
        b == all_digits(v@.skip(from as int)),
{
    let mut i = from;
    while i < v.len()
        invariant
            from <= i <= v.len(),
            forall|k: int| from <= k < i ==> is_digit(#[trigger] v@[k]),
        decreases v.len() - i,
    {
        if !is_digit_exec(v[i]) {
            assert(!is_digit(v@.skip(from as int)[i - from]));
            return false;
        }
        i = i + 1;
    }
    assert forall|k: int| 0 <= k < v@.skip(from as int).len() implies is_digit(
        #[trigger] v@.skip(from as int)[k],
    ) by {
        assert(v@.skip(from as int)[k] == v@[k + from]);
    }
    true
}

/// An optional number from the digits `v[lo..hi]`.
fn optional_number_exec(v: &Vec<char>, lo: usize, hi: usize) -> (r: Option<Option<u32>>)
    requires
        lo <= hi <= v.len(),
    ensures
        r == optional_number(v@.subrange(lo as int, hi as int)),
{
    if lo == hi {
        return Some(None);
    }
    let d = slice_chars(v, lo, hi);
    match parse_u32(&d) {
        Some(n) => Some(Some(n)),
        None => None,
    }
}

/// The meaning of one trimmed part of a `--range` list.
pub fn classify_part(p: &Vec<char>) -> (r: Part)
    ensures
        r == part_spec(p@),
{
    if p.len() == 0 {
        return Part::Skip;
    }
    if let Some(n) = parse_u32(p) {
        return Part::Single(n);
    }
    let mut a: usize = 0;
    while a < p.len() && is_digit_exec(p[a])
        invariant
            a <= p.len(),
            forall|k: int| 0 <= k < a ==> is_digit(#[trigger] p@[k]),
        decreases p.len() - a,
    {
        a = a + 1;
    }
    proof {
        lemma_digit_prefix_len_at(p@, a as int);
    }
    let ghost rest = p@.skip(a as int);
    if !(a < p.len() && p.len() - a >= 2 && p[a] == '.' && p[a + 1] == '.') {
        assert(!starts_with(rest, seq!['.', '.'])) by {
            if starts_with(rest, seq!['.', '.']) {
                assert(rest.take(2)[0] == p@[a as int]);
                assert(rest.take(2)[1] == p@[a + 1]);
            }
        }
        return Part::Fail(RangeErrorKind::Invalid);
    }
    assert(rest.take(2) =~= seq!['.', '.']);
    let incl = a + 2 < p.len() && p[a + 2] == '=';
    let b: usize = if incl {
        a + 3
    } else {
        a + 2
    };
    assert(rest.skip(2) =~= p@.skip(a + 2));
    assert(incl ==> p@.skip(a + 2).drop_first() =~= p@.skip(b as int));
    if !all_digits_from(p, b) {
        return Part::Fail(RangeErrorKind::Invalid);
    }
    assert(p@.take(a as int) =~= p@.subrange(0, a as int));
    assert(p@.skip(b as int) =~= p@.subrange(b as int, p.len() as int));
    let since = match optional_number_exec(p, 0, a) {
        None => {
            return Part::Fail(RangeErrorKind::NumberTooLarge);
        },
        Some(x) => x,
    };
    let end = match optional_number_exec(p, b, p.len()) {
        None => {
            return Part::Fail(RangeErrorKind::NumberTooLarge);
        },
        Some(x) => x,
    };
    let e = match end {
        None => {
            return match since {
                None => Part::Fail(RangeErrorKind::OpenEnded),
                Some(st) => Part::From(st),
            };
        },
        Some(e) => e,
    };
    if !incl && e == 0 {
        return Part::Fail(RangeErrorKind::EmptyRange);
    }
    let until = if incl {
        e
    } else {
        e - 1
    };
    match since {
        None => Part::UpTo(until),
        Some(st) => if until < st {
            Part::Fail(RangeErrorKind::EmptyRange)
        } else {
            Part::Span(st, until)
        },
    }
}

proof fn lemma_selection_error_stays(ps: Seq<Seq<char>>, i: int)
    requires
        0 <= i <= ps.len(),
        selection(ps.take(i)) is Err,
    ensures
        selection(ps) == selection(ps.take(i)),
    decreases ps.len() - i,
{
    if i < ps.len() {
        assert(ps.take(i + 1).drop_last() =~= ps.take(i));
        lemma_selection_error_stays(ps, i + 1);
    } else {
        assert(ps.take(i) =~= ps);
    }
}

/// Adds `a..=b` to the set.
fn insert_span(set: &mut BTreeSet<u32>, a: u32, b: u32)
    requires
        a <= b,
    ensures
        final(set)@ == old(set)@.union(span(a, b)),
{
    proof {
        lemma_u32_ordered();
    }
    let mut n = a;
    loop
        invariant
            a <= n <= b,
            set@ == old(set)@.union(Set::new(|x: u32| a <= x && x < n)),
        decreases b - n,
    {
        set.insert(n);
        if n == b {
            assert(set@ =~= old(set)@.union(span(a, b)));
            return;
        }
        n = n + 1;
        assert(set@ =~= old(set)@.union(Set::new(|x: u32| a <= x && x < n)));
    }
}

/// The lesser of two optional lower bounds of `A..` parts, with `a` added.
fn lower_from(from: Option<u32>, a: u32) -> (r: Option<u32>)
    ensures
        from_set(r) == from_set(from).union(span(a, u32::MAX)),
        r is Some,
{
    let r = match from {
        Some(f) => if f < a {
            f
        } else {
            a
        },
        None => a,
    };
    assert(from_set(Some(r)) =~= from_set(from).union(span(a, u32::MAX)));
    Some(r)
}

/// The greater of two optional upper bounds of `..B` parts, with `b` added.
fn upper_upto(upto: Option<u32>, b: u32) -> (r: Option<u32>)
    ensures
        upto_set(r) == upto_set(upto).union(span(0, b)),
        r is Some,
{
    let r = match upto {
        Some(u) => if u < b {
            b
        } else {
            u
        },
        None => b,
    };
    assert(upto_set(Some(r)) =~= upto_set(upto).union(span(0, b)));
    Some(r)
}

/// Parses a comma-separated list of numbers and ranges (`5`, `1..50`, `1..=50`, `5..`,
/// `..20`, `..=20`): the list selects the union of its parts. The first part refused is the
/// error, and so is a list that selects nothing.
pub fn parse_range(s: &str) -> (r: Result<PageRange, RangeError>)
    ensures
        match parse_range_spec(s@) {
            Ok(set) => r matches Ok(pr) && pr@ == Some(set),
            Err((k, t)) => r matches Err(e) && e.kind == k && e.text@ == t,
        },
{
    let chars = chars_of(s);
    let parts = split_chars(&chars, ',');
    let ghost ps = views(parts@);
    let mut set: BTreeSet<u32> = BTreeSet::new();
    let mut from: Option<u32> = None;
    let mut upto: Option<u32> = None;
    let mut i: usize = 0;
    assert(ps.take(0) =~= Seq::<Seq<char>>::empty());
    assert(picked(set@, from, upto) =~= Set::<u32>::empty());
    while i < parts.len()
        invariant
            i <= parts.len(),
            ps == views(parts@),
            ps == split(chars@, ','),
            chars@ == s@,
            ps.len() == parts.len(),
            selection(ps.take(i as int)) == Ok::<Set<u32>, (RangeErrorKind, Seq<char>)>(
                picked(set@, from, upto),
            ),
        decreases parts.len() - i,
    {
        let part = trim_chars(&parts[i]);
        assert(ps.take(i + 1).drop_last() =~= ps.take(i as int));
        assert(ps.take(i + 1).last() == parts@[i as int]@);
        let ghost before = picked(set@, from, upto);
        proof {
            lemma_u32_ordered();
        }
        match classify_part(&part) {
            Part::Skip => {},
            Part::Single(n) => {
                set.insert(n);
                assert(picked(set@, from, upto) =~= before.insert(n));
            },
            Part::Span(a, b) => {
                let ghost old_set = set@;
                insert_span(&mut set, a, b);
                assert(picked(set@, from, upto) =~= before.union(span(a, b)));
            },
            Part::From(a) => {
                let ghost old_from = from;
                from = lower_from(from, a);
                assert(picked(set@, from, upto) =~= before.union(span(a, u32::MAX)));
            },
            Part::UpTo(b) => {
                upto = upper_upto(upto, b);
                assert(picked(set@, from, upto) =~= before.union(span(0, b)));
            },
            Part::Fail(kind) => {
                assert(selection(ps.take(i + 1)) == Err::<Set<u32>, (RangeErrorKind, Seq<char>)>(
                    (kind, part@),
                ));
                proof {
                    lemma_selection_error_stays(ps, i + 1);
                }
                return Err(RangeError { kind, text: string_of(&part) });
            },
        }
        i = i + 1;
    }
    assert(ps.take(parts.len() as int) =~= ps);
    if set.is_empty() && from.is_none() && upto.is_none() {
        assert(picked(set@, from, upto) =~= Set::<u32>::empty());
        return Err(RangeError { kind: RangeErrorKind::NothingSelected, text: string_of(&chars) });
    }
    proof {
        let u = picked(set@, from, upto);
        if u.is_empty() {
            match from {
                Some(a) => assert(u.contains(a)),
                None => match upto {
                    Some(b) => assert(u.contains(b)),
                    None => {
                        assert(!(set@ =~= Set::<u32>::empty()));
                        let x = set@.choose();
                        assert(u.contains(x));
                    },
                },
            }
        }
    }
    Ok(PageRange(Selection::Picked { numbers: set, from, upto }))
}

/// A list that follows another list selects what the first selects together with what the
/// second selects, when both are taken.
proof fn lemma_selection_append(ps1: Seq<Seq<char>>, ps2: Seq<Seq<char>>)
    requires
        selection(ps1) is Ok,
        selection(ps2) is Ok,
    ensures
        selection(ps1 + ps2) == Ok::<Set<u32>, (RangeErrorKind, Seq<char>)>(
            selection(ps1)->Ok_0.union(selection(ps2)->Ok_0),
        ),
    decreases ps2.len(),
{
    let a = selection(ps1)->Ok_0;
    if ps2.len() == 0 {
        assert(ps1 + ps2 =~= ps1);
        assert(a.union(Set::empty()) =~= a);
    } else {
        let init = ps2.drop_last();
        lemma_selection_append(ps1, init);
        assert((ps1 + ps2).drop_last() =~= ps1 + init);
        assert((ps1 + ps2).last() == ps2.last());
        let b0 = selection(init)->Ok_0;
        let p = trim(ps2.last());
        match part_spec(p) {
            Part::Single(n) => {
                assert(a.union(b0).insert(n) =~= a.union(b0.insert(n)));
            },
            Part::Span(x, y) => {
                assert(a.union(b0).union(span(x, y)) =~= a.union(b0.union(span(x, y))));
            },
            Part::From(x) => {
                assert(a.union(b0).union(span(x, u32::MAX)) =~= a.union(b0.union(span(x, u32::MAX))));
            },
            Part::UpTo(y) => {
                assert(a.union(b0).union(span(0, y)) =~= a.union(b0.union(span(0, y))));
            },
            _ => {},
        }
    }
}

/// A `--range` list joined to another by a comma selects the union of what each selects,
/// when each is accepted on its own.
pub proof fn lemma_range_list_union(a: Seq<char>, b: Seq<char>)
    requires
        parse_range_spec(a) is Ok,
        parse_range_spec(b) is Ok,
    ensures
        parse_range_spec(a + seq![','] + b) == Ok::<Set<u32>, (RangeErrorKind, Seq<char>)>(
            parse_range_spec(a)->Ok_0.union(parse_range_spec(b)->Ok_0),
        ),
{
    lemma_split_join(a, b, ',');
    lemma_selection_append(split(a, ','), split(b, ','));
    let ra = parse_range_spec(a)->Ok_0;
    let u = ra.union(parse_range_spec(b)->Ok_0);
    assert(!ra.is_empty());
    assert(!(ra =~= Set::<u32>::empty()));
    assert(ra.contains(ra.choose()));
    assert(u.contains(ra.choose()));
    assert(!u.is_empty());
}

} // verus!
