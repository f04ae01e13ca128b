//! The decisions of the interactive prompt: which meta-command a line is,
//! when an input needs more lines, the program a session runs next, the part
//! of a run's output that is new, and how an input is kept in the history.

use vstd::prelude::*;
use crate::text::{str_chars, str_eq, push_char, push_str, is_whitespace};
use crate::tomlparse::{trim_spec, trim_range, trim_end_at, trim_start_at};

verus! {

/// What a line typed at the prompt asks for.
#[derive(Clone, Copy, PartialEq, Eq, Structural, Debug)]
pub enum Command {
    /// `बाहर`, `exit` or `quit`.
    Exit,
    /// `:इतिहास` or `:history`.
    History,
    /// `:सहायता` or `:help`.
    Help,
    /// `:रीसेट` or `:reset`.
    Reset,
    /// Nothing but whitespace.
    Blank,
    /// Program text.
    Code,
}

/// The command a line stands for, by its trimmed text.
pub open spec fn command_spec(line: Seq<char>) -> Command {
    let t = trim_spec(line);
    if t == "बाहर"@ || t == "exit"@ || t == "quit"@ {
        Command::Exit
    } else if t == ":इतिहास"@ || t == ":history"@ {
        Command::History
    } else if t == ":सहायता"@ || t == ":help"@ {
        Command::Help
    } else if t == ":रीसेट"@ || t == ":reset"@ {
        Command::Reset
    } else if t.len() == 0 {
        Command::Blank
    } else {
        Command::Code
    }
}

/// The command a line typed at the prompt stands for (see `command_spec`).
pub fn command(line: &str) -> (c: Command)
    ensures
        c == command_spec(line@),
{
    let s = str_chars(line);
    let (a, b) = trim_range(s.as_slice(), 0, s.len());
    assert(s@.subrange(0, s@.len() as int) =~= s@);
    let mut t = String::new();
    crate::text::push_chars(&mut t, s.as_slice(), a, b);
    assert(t@ =~= trim_spec(line@));
    let t = t.as_str();
    if str_eq(t, "बाहर") || str_eq(t, "exit") || str_eq(t, "quit") {
        Command::Exit
    } else if str_eq(t, ":इतिहास") || str_eq(t, ":history") {
        Command::History
    } else if str_eq(t, ":सहायता") || str_eq(t, ":help") {
        Command::Help
    } else if str_eq(t, ":रीसेट") || str_eq(t, ":reset") {
        Command::Reset
    } else if a == b {
        Command::Blank
    } else {
        Command::Code
    }
}

// ── Brackets ─────────────────────────────────────────────────────────────────

/// The bracket depth after reading `s[..i]`, and whether a string literal is
/// open there; `prev` is the character before position `i`.
pub open spec fn depth_scan(s: Seq<char>, i: int) -> (int, bool, char)
    decreases i,
{
    if i <= 0 {
        (0, false, '\0')
    } else {
        let (d, in_str, prev) = depth_scan(s, i - 1);
        let c = s[i - 1];
        if in_str {
            (d, !(c == '"' && prev != '\\'), c)
        } else if c == '"' {
            (d, true, c)
        } else if c == '(' || c == '[' || c == '{' {
            (d + 1, false, c)
        } else if c == ')' || c == ']' || c == '}' {
            (d - 1, false, c)
        } else {
            (d, false, c)
        }
    }
}

/// The count of unclosed `(` `[` `{` in `s`, leaving out brackets inside
/// string literals (a `"` after a `\` does not close one).
pub open spec fn bracket_depth_spec(s: Seq<char>) -> int {
    depth_scan(s, s.len() as int).0
}

/// Unclosed brackets in `s` (see `bracket_depth_spec`); inputs are far shorter
/// than the range of `i32`.
pub fn open_bracket_depth(s: &str) -> (d: i32)
    requires
        s@.len() < 0x7fff_ffff,
    ensures
        d == bracket_depth_spec(s@),
{
    let chars = str_chars(s);
    let mut depth: i32 = 0;
    let mut in_str = false;
    let mut prev = '\0';
    let mut i: usize = 0;
    while i < chars.len()
        invariant
            chars@ == s@,
            chars@.len() < 0x7fff_ffff,
            i <= chars@.len(),
            depth_scan(chars@, i as int) == (depth as int, in_str, prev),
            -(i as int) <= depth <= i,
        decreases chars@.len() - i,
    {
        let c = chars[i];
        if in_str {
            if c == '"' && prev != '\\' {
                in_str = false;
            }
        } else {
            if c == '"' {
                in_str = true;
            } else if c == '(' || c == '[' || c == '{' {
                depth = depth + 1;
            } else if c == ')' || c == ']' || c == '}' {
                depth = depth - 1;
            }
        }
        prev = c;
        i = i + 1;
    }
    depth
}

// ── Sessions ─────────────────────────────────────────────────────────────────

/// An input goes on for more lines while it ends with `:` (trailing
/// whitespace aside) or has unclosed brackets.
pub open spec fn needs_more_spec(input: Seq<char>) -> bool {
    let e = trim_end_at(input, 0, input.len() as int);
    (e > 0 && input[e - 1] == ':') || bracket_depth_spec(input) > 0
}

/// Whether the prompt reads another line for this input.
pub fn needs_more(input: &str) -> (b: bool)
    requires
        input@.len() < 0x7fff_ffff,
    ensures
        b == needs_more_spec(input@),
{
    let s = str_chars(input);
    let mut e = s.len();
    while e > 0 && is_whitespace(s[e - 1])
        invariant
            s@ == input@,
            e <= s@.len(),
            trim_end_at(s@, 0, e as int) == trim_end_at(s@, 0, s@.len() as int),
        decreases e,
    {
        e = e - 1;
    }
    (e > 0 && s[e - 1] == ':') || open_bracket_depth(input) > 0
}

/// The program run for a new input: the session so far, a line break, then
/// the input (the input alone when the session is empty).
pub open spec fn candidate_spec(session: Seq<char>, input: Seq<char>) -> Seq<char> {
    if session.len() == 0 {
        input
    } else {
        session + seq!['\n'] + input
    }
}

/// The program to run for `input` after `session` (see `candidate_spec`).
pub fn candidate(session: &str, input: &str) -> (r: String)
    ensures
        r@ == candidate_spec(session@, input@),
{
    let mut r = String::new();
    if session.unicode_len() > 0 {
        push_str(&mut r, session);
        push_char(&mut r, '\n');
    }
    push_str(&mut r, input);
    assert(r@ =~= candidate_spec(session@, input@));
    r
}

/// The output of a run that is new: what follows the previous run's output
/// when it starts with it, else all of it.
pub open spec fn output_delta_spec(full: Seq<char>, prev: Seq<char>) -> Seq<char> {
    if prev.len() <= full.len() && full.subrange(0, prev.len() as int) == prev {
        full.subrange(prev.len() as int, full.len() as int)
    } else {
        full
    }
}

/// The new part of a run's output (see `output_delta_spec`).
pub fn output_delta(full: &str, prev: &str) -> (r: String)
    ensures
        r@ == output_delta_spec(full@, prev@),
{
    let f = str_chars(full);
    let p = str_chars(prev);
    let mut same = p.len() <= f.len();
    let mut i: usize = 0;
    while same && i < p.len()
        invariant
            f@ == full@,
            p@ == prev@,
            same ==> p@.len() <= f@.len(),
            i <= p@.len(),
            same ==> forall|j: int| 0 <= j < i ==> f@[j] == p@[j],
            !same ==> !(p@.len() <= f@.len() && f@.subrange(0, p@.len() as int) == p@),
        decreases p@.len() - i + (if same { 1int } else { 0int }),
    {
        if f[i] != p[i] {
            assert(f@.subrange(0, p@.len() as int)[i as int] == f@[i as int]);
            same = false;
        } else {
            i = i + 1;
        }
    }
    let mut r = String::new();
    if same {
        assert(f@.subrange(0, p@.len() as int) =~= p@);
        crate::text::push_chars(&mut r, f.as_slice(), p.len(), f.len());
    } else {
        crate::text::push_chars(&mut r, f.as_slice(), 0, f.len());
        assert(f@.subrange(0, f@.len() as int) =~= f@);
    }
    assert(r@ =~= output_delta_spec(full@, prev@));
    r
}

/// An input as kept in the history: on one line, each line break shown as ` ↵ `.
pub open spec fn history_entry_spec(input: Seq<char>) -> Seq<char>
    decreases input.len(),
{
    if input.len() == 0 {
        seq![]
    } else {
        history_entry_spec(input.drop_last()) + if input.last() == '\n' {
            " ↵ "@
        } else {
            seq![input.last()]
        }
    }
}

/// The history line for an input (see `history_entry_spec`).
pub fn history_entry(input: &str) -> (r: String)
    ensures
        r@ == history_entry_spec(input@),
{
    let s = str_chars(input);
    let mut r = String::new();
    let mut i: usize = 0;
    while i < s.len()
        invariant
            s@ == input@,
            i <= s@.len(),
            r@ == history_entry_spec(s@.subrange(0, i as int)),
        decreases s@.len() - i,
    {
        let ghost before = r@;
        if s[i] == '\n' {
            push_str(&mut r, " ↵ ");
        } else {
            push_char(&mut r, s[i]);
        }
        proof {
            let t = s@.subrange(0, i + 1);
            assert(t.drop_last() =~= s@.subrange(0, i as int));
            assert(t.last() == s@[i as int]);
        }
        i = i + 1;
    }
    assert(s@.subrange(0, s@.len() as int) =~= s@);
    r
}

/// The first history entry shown: the last twenty are listed.
pub fn history_start(len: usize) -> (s: usize)
    ensures
        s == if len >= 20 { len - 20 } else { 0 },
{
    if len >= 20 {
        len - 20
    } else {
        0
    }
}

} // verus!
