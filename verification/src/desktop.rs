//! Texts handed to the desktop: shell-quoted launch commands and the
//! autostart entry of the mapping watcher.

use vstd::prelude::*;
use vstd::string::*;
use crate::text::{chars_of, string_of};

verus! {

/// Each character of `s` replaced by its expansion under `f`.
pub open spec fn expand(s: Seq<char>, f: spec_fn(char) -> Seq<char>) -> Seq<char>
    decreases s.len(),
{
    if s.len() == 0 {
        seq![]
    } else {
        expand(s.drop_last(), f) + f(s.last())
    }
}

/// Inside single quotes, a quote is written as quote, backslash, quote,
/// quote.
pub open spec fn shell_char(c: char) -> Seq<char> {
    if c == '\'' {
        seq!['\'', '\\', '\'', '\'']
    } else {
        seq![c]
    }
}

/// `s` as one single-quoted shell word.
pub open spec fn quoted(s: Seq<char>) -> Seq<char> {
    seq!['\''] + expand(s, |c: char| shell_char(c)) + seq!['\'']
}

/// Quotes `s` as a single shell word.
pub fn quote(s: &str) -> (q: String)
    ensures
        q@ == quoted(s@),
{
    let cs = chars_of(s);
    let mut out: Vec<char> = Vec::new();
    out.push('\'');
    for i in 0..cs.len()
        invariant
            cs@ == s@,
            out@ == seq!['\''] + expand(cs@.take(i as int), |c: char| shell_char(c)),
    {
        assert(cs@.take(i + 1).drop_last() == cs@.take(i as int));
        let c = cs[i];
        if c == '\'' {
            out.push('\'');
            out.push('\\');
            out.push('\'');
            out.push('\'');
        } else {
            out.push(c);
        }
    }
    assert(cs@.take(cs@.len() as int) == cs@);
    out.push('\'');
    string_of(&out)
}

/// The command that launches the application described by the desktop
/// file at `path`.
pub open spec fn launch_text(path: Seq<char>) -> Seq<char> {
    "gio launch "@ + quoted(path)
}

/// The command that launches the application described by the desktop
/// file at `path`.
pub fn launch_command(path: &str) -> (c: String)
    ensures
        c@ == launch_text(path@),
{
    let mut c = "gio launch ".to_owned();
    c.append(quote(path).as_str());
    c
}

/// How a character of the executable's path is written inside the
/// double-quoted `Exec` key of a desktop entry: backslash, double quote,
/// backquote and dollar get a backslash, and percent is doubled.
pub open spec fn entry_char(c: char) -> Seq<char> {
    if c == '\\' || c == '"' || c == '`' || c == '$' {
        seq!['\\', c]
    } else if c == '%' {
        seq!['%', '%']
    } else {
        seq![c]
    }
}

/// The autostart entry that runs the executable at `exe` as the mapping
/// watcher.
pub open spec fn entry_text(exe: Seq<char>) -> Seq<char> {
    "[Desktop Entry]\nType=Application\nName=Key Layout mappings\nExec=\""@ + expand(
        exe,
        |c: char| entry_char(c),
    ) + "\" --watch\nOnlyShowIn=XFCE;\nTerminal=false\n"@
}

/// The autostart entry that runs the executable at `exe` as the mapping
/// watcher.
pub fn desktop_entry(exe: &str) -> (text: String)
    ensures
        text@ == entry_text(exe@),
{
    let cs = chars_of(exe);
    let mut out: Vec<char> = Vec::new();
    for i in 0..cs.len()
        invariant
            cs@ == exe@,
            out@ == expand(cs@.take(i as int), |c: char| entry_char(c)),
    {
        assert(cs@.take(i + 1).drop_last() == cs@.take(i as int));
        let c = cs[i];
        if c == '\\' || c == '"' || c == '`' || c == '$' {
            out.push('\\');
            out.push(c);
        } else if c == '%' {
            out.push('%');
            out.push('%');
        } else {
            out.push(c);
        }
    }
    assert(cs@.take(cs@.len() as int) == cs@);
    let mut text = "[Desktop Entry]\nType=Application\nName=Key Layout mappings\nExec=\"".to_owned();
    text.append(string_of(&out).as_str());
    text.append("\" --watch\nOnlyShowIn=XFCE;\nTerminal=false\n");
    text
}

} // verus!
