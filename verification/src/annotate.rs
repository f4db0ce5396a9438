//! Annotating a translated section with the `translate_infrequent` tool.
use vstd::prelude::*;

use crate::section::{shell_escape, shell_escape_spec};
use crate::text::{append_chars, chars_of, string_of};

verus! {

/// The shell command that annotates `tmp_in` into `tmp_out`.
pub open spec fn annotate_command_spec(
    language: Seq<char>,
    wlimit: Seq<char>,
    tmp_in: Seq<char>,
    tmp_out: Seq<char>,
) -> Seq<char> {
    "translate_infrequent -l "@ + shell_escape_spec(language) + " -w "@ + shell_escape_spec(wlimit)
        + " < '"@ + tmp_in + "' > '"@ + tmp_out + "'"@
}

/// The `sh -c` command line: language and word limit quoted as shell words, input and
/// output paths in single quotes.
pub fn annotate_command(language: &str, wlimit: &str, tmp_in: &str, tmp_out: &str) -> (cmd: String)
    ensures
        cmd@ == annotate_command_spec(language@, wlimit@, tmp_in@, tmp_out@),
{
    let mut v = chars_of("translate_infrequent -l ");
    append_chars(&mut v, &chars_of(shell_escape(language).as_str()));
    append_chars(&mut v, &chars_of(" -w "));
    append_chars(&mut v, &chars_of(shell_escape(wlimit).as_str()));
    append_chars(&mut v, &chars_of(" < '"));
    append_chars(&mut v, &chars_of(tmp_in));
    append_chars(&mut v, &chars_of("' > '"));
    append_chars(&mut v, &chars_of(tmp_out));
    append_chars(&mut v, &chars_of("'"));
    string_of(&v)
}

} // verus!
