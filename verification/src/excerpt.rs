//! The source excerpt shown under an error: the line that an error message
//! names by `(line N)` or `(पंक्ति N)`, numbered, with a row of carets.

use vstd::prelude::*;
use crate::text::{str_chars, find_chars, contains_spec, first_occ_from, lemma_first_occ_from, push_char, push_str, push_chars,
    decimal, decimal_spec, is_ascii_digit_spec};
use crate::tomlparse::{all_digits, trim_spec, trim_range, lines_spec, line_ranges, first_index, find_char, sub_chars};
use crate::tui::{digits_value, parse_digits};

verus! {

/// What std `str::parse::<usize>` accepts: an optional `+`, then one or
/// more ASCII digits, the value at most `usize::MAX`.
pub open spec fn usize_literal(s: Seq<char>) -> Option<usize> {
    let d = if s.len() > 0 && s[0] == '+' { s.drop_first() } else { s };
    if d.len() > 0 && all_digits(d) && digits_value(d) <= usize::MAX {
        Some(digits_value(d) as usize)
    } else {
        None
    }
}

/// `c` repeated `n` times.
pub open spec fn repeat_char(c: char, n: nat) -> Seq<char> {
    Seq::new(n, |i: int| c)
}

/// The decimal text of `n` right-aligned in four columns.
pub open spec fn align4(n: nat) -> Seq<char> {
    let d = decimal_spec(n);
    if d.len() < 4 {
        repeat_char(' ', (4 - d.len()) as nat) + d
    } else {
        d
    }
}

/// The marker that introduces the line number in `msg`.
pub open spec fn marker_of(msg: Seq<char>) -> Seq<char> {
    if contains_spec(msg, "(line "@) {
        "(line "@
    } else {
        "(पंक्ति "@
    }
}

/// The line number that `msg` names, if it names one: the number between the
/// first marker and the `)` after it, trimmed.
pub open spec fn named_line(msg: Seq<char>) -> Option<usize> {
    let mk = marker_of(msg);
    let start = first_occ_from(msg, mk, 0);
    if start >= msg.len() {
        None
    } else {
        let rest = msg.subrange(start + mk.len(), msg.len() as int);
        let end = first_index(rest, ')', 0);
        if end >= rest.len() {
            None
        } else {
            usize_literal(trim_spec(rest.subrange(0, end)))
        }
    }
}

/// The two lines shown for an error: `  NNNN │ <source line>` and a row of
/// carets as long as the trimmed line (at least one); nothing when the
/// message names no line or the source has no such line (line 0 counts as 1).
pub open spec fn excerpt_spec(source: Seq<char>, msg: Seq<char>) -> Option<(Seq<char>, Seq<char>)> {
    match named_line(msg) {
        None => None,
        Some(n) => {
            let ls = lines_spec(source);
            let k = if n >= 1 { n - 1 } else { 0 };
            if k >= ls.len() {
                None
            } else {
                let line = ls[k];
                let carets = trim_spec(line).len();
                Some((
                    "  "@ + align4(n as nat) + " │ "@ + line,
                    "       │ "@ + repeat_char('^', if carets > 0 { carets } else { 1 }),
                ))
            }
        }
    }
}

fn push_repeat(s: &mut String, c: char, n: usize)
    ensures
        final(s)@ == old(s)@ + repeat_char(c, n as nat),
{
    let mut i: usize = 0;
    while i < n
        invariant
            i <= n,
            s@ == old(s)@ + repeat_char(c, i as nat),
        decreases n - i,
    {
        push_char(s, c);
        i = i + 1;
        assert(s@ =~= old(s)@ + repeat_char(c, i as nat));
    }
}

/// The value of a trimmed line number (see `usize_literal`).
fn parse_line_number(s: &Vec<char>) -> (r: Option<usize>)
    ensures
        r == usize_literal(s@),
{
    let signed = s.len() > 0 && s[0] == '+';
    let d = if signed { sub_chars(s.as_slice(), 1, s.len()) } else { sub_chars(s.as_slice(), 0, s.len()) };
    assert(d@ =~= (if s@.len() > 0 && s@[0] == '+' { s@.drop_first() } else { s@ }));
    if d.len() == 0 {
        return None;
    }
    let mut i: usize = 0;
    while i < d.len()
        invariant
            i <= d@.len(),
            d@ == (if s@.len() > 0 && s@[0] == '+' { s@.drop_first() } else { s@ }),
            forall|j: int| 0 <= j < i ==> is_ascii_digit_spec(#[trigger] d@[j]),
        decreases d@.len() - i,
    {
        if !(d[i] >= '0' && d[i] <= '9') {
            assert(!is_ascii_digit_spec(d@[i as int]));
            assert(!all_digits(d@));
            return None;
        }
        i = i + 1;
    }
    parse_digits(&d)
}

/// The excerpt lines for an error message (see `excerpt_spec`).
#[verifier::spinoff_prover]
#[verifier::rlimit(30)]
pub fn error_excerpt(source: &str, msg: &str) -> (r: Option<(String, String)>)
    ensures
        match excerpt_spec(source@, msg@) {
            None => r is None,
            Some((a, b)) => r matches Some(x) && x.0@ == a && x.1@ == b,
        },
{
    let m = str_chars(msg);
    let line_mk = str_chars("(line ");
    let pankti_mk = str_chars("(पंक्ति ");
    proof {
        reveal_strlit("(line ");
        reveal_strlit("(पंक्ति ");
    }
    let mk = match find_chars(&m, &line_mk) {
        Some(_) => line_mk,
        None => pankti_mk,
    };
    assert(mk@ == marker_of(msg@));
    proof {
        lemma_first_occ_from(m@, mk@, 0);
    }
    let start = match find_chars(&m, &mk) {
        Some(p) => p,
        None => {
            return None;
        },
    };
    assert(crate::text::occurs_at(m@, start as int, mk@));
    assert(start + mk@.len() <= m@.len());
    assert(mk.len() == mk@.len());
    let mlen = m.len();
    assert(start + mk.len() <= mlen);
    let from = start + mk.len();
    let end = find_char(m.as_slice(), from, m.len(), ')');
    if end >= m.len() {
        return None;
    }
    let (a, b) = trim_range(m.as_slice(), from, end);
    proof {
        let rest = m@.subrange(from as int, m@.len() as int);
        assert(rest.subrange(0, end - from) =~= m@.subrange(from as int, end as int));
    }
    let num = sub_chars(m.as_slice(), a, b);
    let n = match parse_line_number(&num) {
        Some(n) => n,
        None => {
            return None;
        },
    };
    let s = str_chars(source);
    let ranges = line_ranges(&s);
    let k = if n >= 1 { n - 1 } else { 0 };
    if k >= ranges.len() {
        return None;
    }
    let (la, lb) = ranges[k];
    let ghost line = lines_spec(s@)[k as int];
    assert(s@.subrange(la as int, lb as int) == line);
    let (ta, tb) = trim_range(s.as_slice(), la, lb);
    let mut first = String::new();
    push_str(&mut first, "  ");
    let digits = decimal(n as u64);
    if digits.len() < 4 {
        push_repeat(&mut first, ' ', 4 - digits.len());
    }
    push_chars(&mut first, digits.as_slice(), 0, digits.len());
    push_str(&mut first, " │ ");
    push_chars(&mut first, s.as_slice(), la, lb);
    let mut second = String::new();
    push_str(&mut second, "       │ ");
    let count = if tb > ta { tb - ta } else { 1 };
    push_repeat(&mut second, '^', count);
    proof {
        assert(digits@.subrange(0, digits@.len() as int) =~= digits@);
        assert(first@ =~= "  "@ + align4(n as nat) + " │ "@ + line);
        assert(second@ =~= "       │ "@ + repeat_char('^', if trim_spec(line).len() > 0 { trim_spec(line).len() } else { 1 }));
    }
    Some((first, second))
}

} // verus!
