//! The prompt line.
use vstd::prelude::*;

use crate::text::{
    chars_of, extend_chars, replace_first, replace_first_exec, starts_with, starts_with_exec,
    string_of,
};

verus! {

/// `text` in red.
pub fn red(text: &str) -> (r: String)
    ensures
        r@ == "\x1b[31m"@ + text@ + "\x1b[0m"@,
{
    let mut out = chars_of("\x1b[31m");
    extend_chars(&mut out, &chars_of(text));
    extend_chars(&mut out, &chars_of("\x1b[0m"));
    string_of(&out)
}

/// `text` in bright red.
pub fn bright_red(text: &str) -> (r: String)
    ensures
        r@ == "\x1b[91m"@ + text@ + "\x1b[0m"@,
{
    let mut out = chars_of("\x1b[91m");
    extend_chars(&mut out, &chars_of(text));
    extend_chars(&mut out, &chars_of("\x1b[0m"));
    string_of(&out)
}

/// The directory as shown: with the home directory written `~` when the
/// directory lies under it.
pub open spec fn shown_dir(dir: Seq<char>, home: Seq<char>) -> Seq<char> {
    if home.len() > 0 && starts_with(dir, home) {
        replace_first(dir, home, seq!['~'])
    } else {
        dir
    }
}

/// The prompt for `user` on `host` in directory `dir`.
pub open spec fn spec_prompt(user: Seq<char>, host: Seq<char>, dir: Seq<char>, home: Seq<char>) -> Seq<char> {
    "\n---- "@ + ("\x1b[31m"@ + user + "\x1b[0m"@) + " \u{16DF} "@ + host + " \u{16EF} "@ + shown_dir(dir, home)
        + " \u{16A0}\n "@ + ("\x1b[91m"@ + "\u{16DD}"@ + "\x1b[0m"@) + " "@
}

/// Builds the prompt from the user name, the host name, the working
/// directory and the home directory (empty when unknown).
pub fn prompt_text(user: &str, host: &str, dir: &str, home: &str) -> (r: String)
    ensures
        r@ == spec_prompt(user@, host@, dir@, home@),
{
    let d = chars_of(dir);
    let h = chars_of(home);
    let shown = if h.len() > 0 && starts_with_exec(&d, &h) {
        let tilde = vec!['~'];
        assert(tilde@ =~= seq!['~']);
        replace_first_exec(&d, &h, &tilde)
    } else {
        d
    };
    let mut out = chars_of("\n---- ");
    extend_chars(&mut out, &chars_of(red(user).as_str()));
    extend_chars(&mut out, &chars_of(" \u{16DF} "));
    extend_chars(&mut out, &chars_of(host));
    extend_chars(&mut out, &chars_of(" \u{16EF} "));
    extend_chars(&mut out, &shown);
    extend_chars(&mut out, &chars_of(" \u{16A0}\n "));
    extend_chars(&mut out, &chars_of(bright_red("\u{16DD}").as_str()));
    extend_chars(&mut out, &chars_of(" "));
    string_of(&out)
}

} // verus!
