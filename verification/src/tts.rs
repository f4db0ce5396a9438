//! Speech synthesis of a text file: the models, the progress lines of the synthesis script,
//! and the checks on the input and output paths.
use vstd::prelude::*;

use crate::text::{
    chars_of, matches_at, parse_u64, parse_u64_spec, slice_chars, split_once, starts_with,
    string_of, decimal, lemma_decimal, is_digit, lemma_first_index_at,
};

verus! {

/// The speech model.
#[derive(Clone, Copy, Debug, PartialEq, Eq, Structural)]
pub enum Model {
    /// Kokoro-82M. Fast, runs comfortably on CPU.
    Fast,
    /// Chatterbox. Larger and higher quality, wants a GPU.
    Best,
}

impl Model {
    pub open spec fn label_spec(self) -> Seq<char> {
        match self {
            Model::Fast => "kokoro"@,
            Model::Best => "chatterbox"@,
        }
    }

    /// The model's name in messages.
    pub fn label(self) -> (s: &'static str)
        ensures
            s@ == self.label_spec(),
    {
        match self {
            Model::Fast => "kokoro",
            Model::Best => "chatterbox",
        }
    }

    /// `--best` picks Chatterbox; otherwise Kokoro.
    pub fn from_choice(best: bool) -> (m: Model)
        ensures
            m == (if best {
                Model::Best
            } else {
                Model::Fast
            }),
    {
        if best {
            Model::Best
        } else {
            Model::Fast
        }
    }
}

/// The numbers of a `PROGRESS <cur>/<total>` line.
pub open spec fn progress_spec(line: Seq<char>) -> Option<(u64, u64)> {
    if starts_with(line, "PROGRESS "@) {
        match split_once(line.skip(9), '/') {
            Some((a, b)) => match (parse_u64_spec(a), parse_u64_spec(b)) {
                (Some(x), Some(y)) => Some((x, y)),
                _ => None,
            },
            None => None,
        }
    } else {
        None
    }
}

/// A progress line reads back: `PROGRESS a/b`, the numbers written in decimal, gives `a`
/// and `b`.
pub proof fn lemma_progress_round_trip(a: u64, b: u64)
    ensures
        progress_spec("PROGRESS "@ + decimal(a as nat) + seq!['/'] + decimal(b as nat)) == Some(
            (a, b),
        ),
{
    reveal_strlit("PROGRESS ");
    let p = "PROGRESS "@;
    let da = decimal(a as nat);
    let db = decimal(b as nat);
    let line = p + da + seq!['/'] + db;
    lemma_decimal(a as nat);
    lemma_decimal(b as nat);
    assert(p.len() == 9);
    assert(line.take(9) =~= p);
    let rest = line.skip(9);
    assert(rest =~= da + seq!['/'] + db);
    assert forall|k: int| 0 <= k < da.len() implies #[trigger] rest[k] != '/' by {
        assert(rest[k] == da[k]);
        assert(is_digit(da[k]));
    }
    lemma_first_index_at(rest, '/', da.len() as int);
    assert(rest.take(da.len() as int) =~= da);
    assert(rest.skip(da.len() as int + 1) =~= db);
}

/// Reads a `PROGRESS <cur>/<total>` line that the synthesis script prints.
pub fn parse_progress(line: &str) -> (r: Option<(u64, u64)>)
    ensures
        r == progress_spec(line@),
{
    proof {
        reveal_strlit("PROGRESS ");
    }
    let v = chars_of(line);
    assert(v@.skip(0) =~= v@);
    if !matches_at(&v, 0, &chars_of("PROGRESS ")) {
        return None;
    }
    let rest = slice_chars(&v, 9, v.len());
    assert(rest@ =~= v@.skip(9));
    assert(rest@.skip(0) =~= rest@);
    let i = crate::text::find_char_from(&rest, '/', 0);
    if i == rest.len() {
        return None;
    }
    let a = slice_chars(&rest, 0, i);
    let b = slice_chars(&rest, i + 1, rest.len());
    assert(a@ =~= rest@.take(i as int));
    assert(b@ =~= rest@.skip(i + 1));
    match (parse_u64(&a), parse_u64(&b)) {
        (Some(x), Some(y)) => Some((x, y)),
        _ => None,
    }
}

/// Whether a file with this extension can be read aloud (`txt` or `md`).
pub open spec fn tts_input_ok_spec(ext: Seq<char>) -> bool {
    ext == "txt"@ || ext == "md"@
}

fn same_chars_as(v: &Vec<char>, lit: &str) -> (b: bool)
    ensures
        b == (v@ == lit@),
{
    let w = chars_of(lit);
    if v.len() != w.len() {
        return false;
    }
    assert(v@.skip(0) =~= v@);
    let m = matches_at(v, 0, &w);
    assert(m ==> v@.take(w.len() as int) =~= v@);
    m
}

pub fn tts_input_ok(ext: &str) -> (b: bool)
    ensures
        b == tts_input_ok_spec(ext@),
{
    let v = chars_of(ext);
    same_chars_as(&v, "txt") || same_chars_as(&v, "md")
}

pub open spec fn ascii_lower(c: char) -> char {
    if 'A' <= c && c <= 'Z' {
        ((c as u32) + 32) as char
    } else {
        c
    }
}

/// `str::eq_ignore_ascii_case`.
pub open spec fn eq_ignore_ascii_case(a: Seq<char>, b: Seq<char>) -> bool {
    a.len() == b.len() && forall|i: int| 0 <= i < a.len() ==> ascii_lower(#[trigger] a[i]) == ascii_lower(b[i])
}

fn ascii_lower_exec(c: char) -> (r: char)
    ensures
        r == ascii_lower(c),
{
    if 'A' <= c && c <= 'Z' {
        let r = ((c as u32) + 32) as u8 as char;
        assert(r == ((c as u32) + 32) as char);
        r
    } else {
        c
    }
}

/// Whether two strings are equal when ASCII letters are compared without case.
pub fn eq_ignore_ascii_case_exec(a: &str, b: &str) -> (r: bool)
    ensures
        r == eq_ignore_ascii_case(a@, b@),
{
    let v = chars_of(a);
    let w = chars_of(b);
    if v.len() != w.len() {
        return false;
    }
    let mut i: usize = 0;
    while i < v.len()
        invariant
            i <= v.len() == w.len(),
            v@ == a@,
            w@ == b@,
            forall|k: int| 0 <= k < i ==> ascii_lower(#[trigger] v@[k]) == ascii_lower(w@[k]),
        decreases v.len() - i,
    {
        if ascii_lower_exec(v[i]) != ascii_lower_exec(w[i]) {
            return false;
        }
        i = i + 1;
    }
    true
}

/// Why an output path for speech was refused.
pub enum OutputPathError {
    /// It has an extension other than `wav`.
    WrongExtension,
    /// It has no extension (and is not an existing directory).
    NoExtension,
}

/// Accepts an output file path by its extension: it must be `wav`, in any case.
pub fn check_output_ext(ext: Option<&str>) -> (r: Result<(), OutputPathError>)
    ensures
        match ext {
            None => r matches Err(e) && e is NoExtension,
            Some(x) => if eq_ignore_ascii_case(x@, "wav"@) {
                r is Ok
            } else {
                r matches Err(e) && e is WrongExtension
            },
        },
{
    match ext {
        None => Err(OutputPathError::NoExtension),
        Some(x) => {
            if eq_ignore_ascii_case_exec(x, "wav") {
                Ok(())
            } else {
                Err(OutputPathError::WrongExtension)
            }
        },
    }
}

/// The position of the last `.` in a file name, if it holds one.
pub open spec fn last_dot(name: Seq<char>) -> Option<int>
    decreases name.len(),
{
    if name.len() == 0 {
        None
    } else if name.last() == '.' {
        Some(name.len() - 1)
    } else {
        last_dot(name.drop_last())
    }
}

/// The stem of a file name (`Path::file_stem`): the name without its last `.` and what
/// follows; the whole name when it has no `.`, when its only `.` is its first character,
/// or when it is `..`.
pub open spec fn file_stem_spec(name: Seq<char>) -> Seq<char> {
    if name == seq!['.', '.'] {
        name
    } else {
        match last_dot(name) {
            None => name,
            Some(i) => if i == 0 {
                name
            } else {
                name.take(i)
            },
        }
    }
}

/// The name of the speech file written into an output directory: the input file's stem
/// followed by `.wav` (so `notes.v2.txt` gives `notes.v2.wav`).
pub fn wav_file_name(input_file_name: &str) -> (r: String)
    ensures
        r@ == file_stem_spec(input_file_name@) + seq!['.', 'w', 'a', 'v'],
{
    let v = chars_of(input_file_name);
    let mut i = v.len();
    assert(v@.take(i as int) =~= v@);
    while i > 0 && v[i - 1] != '.'
        invariant
            i <= v.len(),
            last_dot(v@) == last_dot(v@.take(i as int)),
        decreases i,
    {
        assert(v@.take(i as int).drop_last() =~= v@.take(i - 1));
        i = i - 1;
    }
    let is_dotdot = v.len() == 2 && v[0] == '.' && v[1] == '.';
    assert(is_dotdot <==> v@ == seq!['.', '.']) by {
        if v@ == seq!['.', '.'] {
            assert(v@[0] == '.' && v@[1] == '.');
        }
        if is_dotdot {
            assert(v@ =~= seq!['.', '.']);
        }
    }
    let mut out: Vec<char> = if is_dotdot || i <= 1 {
        v.clone()
    } else {
        slice_chars(&v, 0, i - 1)
    };
    proof {
        if i > 0 {
            assert(v@.take(i as int).last() == '.');
            assert(last_dot(v@) == Some(i - 1));
        } else {
            assert(v@.take(0) =~= Seq::<char>::empty());
        }
    }
    let ghost before = out@;
    assert(before == file_stem_spec(v@)) by {
        if !is_dotdot && i > 1 {
            assert(out@ =~= v@.take(i - 1));
        }
    }
    out.push('.');
    out.push('w');
    out.push('a');
    out.push('v');
    assert(out@ =~= before + seq!['.', 'w', 'a', 'v']);
    string_of(&out)
}

} // verus!
