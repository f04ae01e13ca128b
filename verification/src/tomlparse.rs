//! भारत.टोमल — reading TOML and INI configuration text into nested tables:
//! bare and quoted keys, `[table]` and `[a.b.c]` headers, `#` comments,
//! strings, integers, floats, booleans and arrays.

use vstd::prelude::*;
use crate::text::{is_whitespace, is_whitespace_spec, str_chars, chars_to_string, push_char, push_chars, decimal, decimal_spec};
use crate::pratimaan::strings_view;
use crate::tui::digits_value;

verus! {

/// A configuration value (`Nil` for YAML's null). Tables keep each key once, in the order keys
/// first appeared. A bare value that is neither a boolean nor an integer is
/// `FloatOrStr(cleaned, text)`: the number `cleaned` (the text without `_`
/// separators) when that reads as a float, else the string `text`.
#[derive(Debug)]
pub enum ConfValue {
    Nil,
    Str(String),
    Int(i64),
    FloatOrStr(String, String),
    Bool(bool),
    List(Vec<ConfValue>),
    Dict(Vec<(String, ConfValue)>),
}

/// The mathematical value of a `ConfValue`.
pub enum ConfModel {
    Nil,
    Str(Seq<char>),
    Int(int),
    FloatOrStr(Seq<char>, Seq<char>),
    Bool(bool),
    List(Seq<ConfModel>),
    Dict(Seq<(Seq<char>, ConfModel)>),
}

pub open spec fn cv(v: ConfValue) -> ConfModel
    decreases v,
{
    match v {
        ConfValue::Nil => ConfModel::Nil,
        ConfValue::Str(s) => ConfModel::Str(s@),
        ConfValue::Int(i) => ConfModel::Int(i as int),
        ConfValue::FloatOrStr(c, s) => ConfModel::FloatOrStr(c@, s@),
        ConfValue::Bool(b) => ConfModel::Bool(b),
        ConfValue::List(items) => ConfModel::List(
            Seq::new(items@.len(), |i: int| if 0 <= i < items@.len() { cv(items@[i]) } else { ConfModel::Bool(false) }),
        ),
        ConfValue::Dict(items) => ConfModel::Dict(
            Seq::new(
                items@.len(),
                |i: int|
                    if 0 <= i < items@.len() {
                        (items@[i].0@, cv(items@[i].1))
                    } else {
                        (Seq::empty(), ConfModel::Bool(false))
                    },
            ),
        ),
    }
}

impl View for ConfValue {
    type V = ConfModel;

    open spec fn view(&self) -> ConfModel {
        cv(*self)
    }
}

pub open spec fn list_view(v: Seq<ConfValue>) -> Seq<ConfModel> {
    Seq::new(v.len(), |i: int| cv(v[i]))
}

pub open spec fn dict_view(v: Seq<(String, ConfValue)>) -> Seq<(Seq<char>, ConfModel)> {
    Seq::new(v.len(), |i: int| (v[i].0@, cv(v[i].1)))
}

// ── Text ─────────────────────────────────────────────────────────────────────

/// The first line break at or after `i` (or the end).
pub open spec fn next_nl(s: Seq<char>, i: int) -> int
    decreases s.len() - i,
{
    if i < 0 || i >= s.len() || s[i] == '\n' {
        i
    } else {
        next_nl(s, i + 1)
    }
}

/// The lines from `i` on, as std `str::lines` gives them: split at `\n`, a
/// `\r` before the `\n` dropped, no empty last line after a final `\n`.
pub open spec fn lines_from(s: Seq<char>, i: int) -> Seq<Seq<char>>
    decreases s.len() - i,
{
    if i < 0 || i >= s.len() {
        seq![]
    } else {
        let e = next_nl(s, i);
        let l = s.subrange(i, e);
        let l2 = if e < s.len() && l.len() > 0 && l.last() == '\r' { l.drop_last() } else { l };
        if e >= s.len() {
            seq![l2]
        } else {
            proof {
                lemma_next_nl(s, i);
            }
            seq![l2] + lines_from(s, e + 1)
        }
    }
}

pub open spec fn lines_spec(s: Seq<char>) -> Seq<Seq<char>> {
    lines_from(s, 0)
}

/// The first position from `i` on that is not whitespace.
pub open spec fn trim_start_at(s: Seq<char>, i: int) -> int
    decreases s.len() - i,
{
    if 0 <= i < s.len() && is_whitespace_spec(s[i]) {
        trim_start_at(s, i + 1)
    } else {
        i
    }
}

/// The end after dropping trailing whitespace before `j`.
pub open spec fn trim_end_at(s: Seq<char>, lo: int, j: int) -> int
    decreases j - lo,
{
    if lo < j && j <= s.len() && is_whitespace_spec(s[j - 1]) {
        trim_end_at(s, lo, j - 1)
    } else {
        j
    }
}

/// std `str::trim`: no whitespace at either end.
pub open spec fn trim_spec(s: Seq<char>) -> Seq<char> {
    let a = trim_start_at(s, 0);
    s.subrange(a, trim_end_at(s, a, s.len() as int))
}

pub proof fn lemma_next_nl(s: Seq<char>, i: int)
    requires
        0 <= i <= s.len(),
    ensures
        i <= next_nl(s, i) <= s.len(),
        next_nl(s, i) < s.len() ==> s[next_nl(s, i)] == '\n',
    decreases s.len() - i,
{
    if i < s.len() && s[i] != '\n' {
        lemma_next_nl(s, i + 1);
    }
}

pub proof fn lemma_trim(s: Seq<char>, i: int, lo: int, j: int)
    requires
        0 <= i <= s.len(),
        0 <= lo <= j <= s.len(),
    ensures
        i <= trim_start_at(s, i) <= s.len(),
        lo <= trim_end_at(s, lo, j) <= j,
    decreases s.len() - i + j - lo,
{
    if i < s.len() && is_whitespace_spec(s[i]) {
        lemma_trim(s, i + 1, lo, j);
    } else if lo < j && is_whitespace_spec(s[j - 1]) {
        lemma_trim(s, i, lo, j - 1);
    }
}

pub(crate) fn trim_chars(s: &[char], a0: usize, b0: usize) -> (r: (usize, usize))
    requires
        a0 <= b0 <= s@.len(),
    ensures
        r.0 == trim_start_at(s@.subrange(a0 as int, b0 as int), 0) + a0,
        r.1 == trim_end_at(s@.subrange(a0 as int, b0 as int), r.0 - a0, (b0 - a0) as int) + a0,
        a0 <= r.0 <= r.1 <= b0,
{
    let ghost t = s@.subrange(a0 as int, b0 as int);
    let mut a = a0;
    while a < b0 && is_whitespace(s[a])
        invariant
            a0 <= a <= b0 <= s@.len(),
            t == s@.subrange(a0 as int, b0 as int),
            trim_start_at(t, (a - a0) as int) == trim_start_at(t, 0),
        decreases b0 - a,
    {
        assert(t[(a - a0) as int] == s@[a as int]);
        a = a + 1;
    }
    let mut b = b0;
    while b > a && is_whitespace(s[b - 1])
        invariant
            a0 <= a <= b <= b0 <= s@.len(),
            t == s@.subrange(a0 as int, b0 as int),
            trim_end_at(t, (a - a0) as int, (b - a0) as int) == trim_end_at(t, (a - a0) as int, (b0 - a0) as int),
        decreases b - a,
    {
        assert(t[(b - 1 - a0) as int] == s@[b - 1]);
        b = b - 1;
    }
    (a, b)
}

/// std `str::trim` on a character slice: the bounds of the trimmed part of `s[a0..b0]`.
pub(crate) fn trim_range(s: &[char], a0: usize, b0: usize) -> (r: (usize, usize))
    requires
        a0 <= b0 <= s@.len(),
    ensures
        a0 <= r.0 <= r.1 <= b0,
        s@.subrange(r.0 as int, r.1 as int) == trim_spec(s@.subrange(a0 as int, b0 as int)),
{
    let (a, b) = trim_chars(s, a0, b0);
    let ghost t = s@.subrange(a0 as int, b0 as int);
    assert(s@.subrange(a as int, b as int) =~= t.subrange((a - a0) as int, (b - a0) as int));
    (a, b)
}

/// The (start, end) ranges of the lines of `s` (see `lines_spec`).
pub(crate) fn line_ranges(s: &Vec<char>) -> (r: Vec<(usize, usize)>)
    ensures
        r@.len() == lines_spec(s@).len(),
        forall|k: int| 0 <= k < r@.len() ==> (#[trigger] r@[k]).0 <= r@[k].1 <= s@.len()
            && s@.subrange(r@[k].0 as int, r@[k].1 as int) == lines_spec(s@)[k],
        forall|j: int, k: int| 0 <= j < k < r@.len() ==> (#[trigger] r@[j]).1 < (#[trigger] r@[k]).0,
{
    let ghost t = s@;
    let n = s.len();
    let mut r: Vec<(usize, usize)> = Vec::new();
    let mut i: usize = 0;
    while i < n
        invariant
            t == s@,
            n == t.len(),
            i <= n,
            lines_spec(t) == (Seq::new(r@.len(), |k: int| t.subrange(r@[k].0 as int, r@[k].1 as int))) + lines_from(t, i as int),
            forall|k: int| 0 <= k < r@.len() ==> (#[trigger] r@[k]).0 <= r@[k].1 <= n,
            forall|k: int| 0 <= k < r@.len() ==> (#[trigger] r@[k]).1 < i || i == n,
            forall|j: int, k: int| 0 <= j < k < r@.len() ==> (#[trigger] r@[j]).1 < (#[trigger] r@[k]).0,
        decreases n - i,
    {
        let ghost before = r@;
        let mut e = i;
        while e < n && s[e] != '\n'
            invariant
                i <= e <= n,
                n == t.len(),
                t == s@,
                next_nl(t, e as int) == next_nl(t, i as int),
            decreases n - e,
        {
            e = e + 1;
        }
        proof {
            lemma_next_nl(t, i as int);
        }
        let end = if e < n && e > i && s[e - 1] == '\r' { e - 1 } else { e };
        r.push((i, end));
        proof {
            let l = t.subrange(i as int, e as int);
            assert(e > i ==> l.last() == t[e - 1]);
            assert(e > i ==> l.drop_last() =~= t.subrange(i as int, e - 1));
            let prev = Seq::new(before.len(), |k: int| t.subrange(before[k].0 as int, before[k].1 as int));
            let now = Seq::new(r@.len(), |k: int| t.subrange(r@[k].0 as int, r@[k].1 as int));
            assert(now =~= prev.push(t.subrange(i as int, end as int)));
            if e < n {
                assert(prev + lines_from(t, i as int) =~= now + lines_from(t, e + 1));
            } else {
                assert(lines_from(t, e + 1) =~= Seq::<Seq<char>>::empty());
                assert(prev + lines_from(t, i as int) =~= now + lines_from(t, e + 1));
            }
        }
        i = if e < n { e + 1 } else { e };
    }
    proof {
        let now = Seq::new(r@.len(), |k: int| t.subrange(r@[k].0 as int, r@[k].1 as int));
        assert(now + lines_from(t, i as int) =~= now);
        assert forall|k: int| 0 <= k < r@.len() implies s@.subrange(r@[k].0 as int, r@[k].1 as int) == lines_spec(s@)[k] by {
            assert(now[k] == t.subrange(r@[k].0 as int, r@[k].1 as int));
        }
    }
    r
}

/// Where a `#` comment begins in `l` (outside quotes), or its end; `q` is the
/// quote character of an open string.
pub open spec fn comment_at(l: Seq<char>, i: int, q: Option<char>) -> int
    decreases l.len() - i,
{
    if i < 0 || i >= l.len() {
        l.len() as int
    } else {
        match q {
            Some(c) => comment_at(l, i + 1, if l[i] == c { None } else { q }),
            None => if l[i] == '"' || l[i] == '\'' {
                comment_at(l, i + 1, Some(l[i]))
            } else if l[i] == '#' {
                i
            } else {
                comment_at(l, i + 1, None)
            },
        }
    }
}

pub open spec fn strip_comment_spec(l: Seq<char>) -> Seq<char> {
    l.subrange(0, comment_at(l, 0, None))
}

proof fn lemma_comment_at(l: Seq<char>, i: int, q: Option<char>)
    requires
        0 <= i <= l.len(),
    ensures
        i <= comment_at(l, i, q) <= l.len(),
    decreases l.len() - i,
{
    if i < l.len() {
        match q {
            Some(c) => lemma_comment_at(l, i + 1, if l[i] == c { None } else { q }),
            None => if l[i] == '"' || l[i] == '\'' {
                lemma_comment_at(l, i + 1, Some(l[i]));
            } else if l[i] != '#' {
                lemma_comment_at(l, i + 1, None);
            },
        }
    }
}

/// The end of `s[a..b]` before its comment (see `strip_comment_spec`).
fn comment_end(s: &[char], a: usize, b: usize) -> (r: usize)
    requires
        a <= b <= s@.len(),
    ensures
        a <= r <= b,
        s@.subrange(a as int, r as int) == strip_comment_spec(s@.subrange(a as int, b as int)),
{
    let ghost l = s@.subrange(a as int, b as int);
    let mut i = a;
    let mut q: Option<char> = None;
    proof {
        lemma_comment_at(l, 0, None);
    }
    while i < b
        invariant
            a <= i <= b <= s@.len(),
            l == s@.subrange(a as int, b as int),
            comment_at(l, (i - a) as int, q) == comment_at(l, 0, None),
        decreases b - i,
    {
        let c = s[i];
        assert(l[(i - a) as int] == c);
        match q {
            Some(x) => {
                if c == x {
                    q = None;
                }
            },
            None => {
                if c == '"' || c == '\'' {
                    q = Some(c);
                } else if c == '#' {
                    assert(s@.subrange(a as int, i as int) =~= l.subrange(0, (i - a) as int));
                    return i;
                }
            },
        }
        i = i + 1;
    }
    assert(s@.subrange(a as int, b as int) =~= l.subrange(0, l.len() as int));
    b
}

/// The end of the `.`-separated piece beginning at `i`.
pub open spec fn next_dot(s: Seq<char>, i: int) -> int
    decreases s.len() - i,
{
    if i < 0 || i >= s.len() || s[i] == '.' {
        i
    } else {
        next_dot(s, i + 1)
    }
}

/// The pieces of `s` from `i` on, split at every `.` (std `str::split`).
pub open spec fn split_dots_from(s: Seq<char>, i: int) -> Seq<Seq<char>>
    decreases s.len() + 1 - i,
{
    if i < 0 || i > s.len() {
        seq![]
    } else {
        let e = next_dot(s, i);
        if e >= s.len() || e < i {
            seq![s.subrange(i, s.len() as int)]
        } else {
            seq![s.subrange(i, e)] + split_dots_from(s, e + 1)
        }
    }
}

pub open spec fn is_quote(c: char) -> bool {
    c == '"' || c == '\''
}

pub open spec fn quote_start(s: Seq<char>, i: int) -> int
    decreases s.len() - i,
{
    if 0 <= i < s.len() && is_quote(s[i]) {
        quote_start(s, i + 1)
    } else {
        i
    }
}

pub open spec fn quote_end(s: Seq<char>, lo: int, j: int) -> int
    decreases j - lo,
{
    if lo < j && j <= s.len() && is_quote(s[j - 1]) {
        quote_end(s, lo, j - 1)
    } else {
        j
    }
}

/// A key piece: trimmed, then quote characters stripped from both ends.
pub open spec fn key_piece(p: Seq<char>) -> Seq<char> {
    let t = trim_spec(p);
    let a = quote_start(t, 0);
    t.subrange(a, quote_end(t, a, t.len() as int))
}

pub open spec fn key_pieces(ps: Seq<Seq<char>>) -> Seq<Seq<char>> {
    ps.map_values(|p: Seq<char>| key_piece(p))
}

/// A dotted key: its pieces.
pub open spec fn key_path_spec(k: Seq<char>) -> Seq<Seq<char>> {
    key_pieces(split_dots_from(k, 0))
}

proof fn lemma_next_dot(s: Seq<char>, i: int)
    requires
        0 <= i <= s.len(),
    ensures
        i <= next_dot(s, i) <= s.len(),
    decreases s.len() - i,
{
    if i < s.len() && s[i] != '.' {
        lemma_next_dot(s, i + 1);
    }
}

proof fn lemma_quotes(s: Seq<char>, i: int, lo: int, j: int)
    requires
        0 <= i <= s.len(),
        0 <= lo <= j <= s.len(),
    ensures
        i <= quote_start(s, i) <= s.len(),
        lo <= quote_end(s, lo, j) <= j,
    decreases s.len() - i + j - lo,
{
    if i < s.len() && is_quote(s[i]) {
        lemma_quotes(s, i + 1, lo, j);
    } else if lo < j && is_quote(s[j - 1]) {
        lemma_quotes(s, i, lo, j - 1);
    }
}

pub(crate) fn key_piece_of(s: &[char], a0: usize, b0: usize) -> (r: String)
    requires
        a0 <= b0 <= s@.len(),
    ensures
        r@ == key_piece(s@.subrange(a0 as int, b0 as int)),
{
    let (ta, tb) = trim_range(s, a0, b0);
    let ghost t = s@.subrange(ta as int, tb as int);
    let mut a = ta;
    while a < tb && (s[a] == '"' || s[a] == '\'')
        invariant
            ta <= a <= tb <= s@.len(),
            t == s@.subrange(ta as int, tb as int),
            quote_start(t, (a - ta) as int) == quote_start(t, 0),
        decreases tb - a,
    {
        assert(t[(a - ta) as int] == s@[a as int]);
        a = a + 1;
    }
    let mut b = tb;
    while b > a && (s[b - 1] == '"' || s[b - 1] == '\'')
        invariant
            ta <= a <= b <= tb <= s@.len(),
            t == s@.subrange(ta as int, tb as int),
            quote_end(t, (a - ta) as int, (b - ta) as int) == quote_end(t, (a - ta) as int, (tb - ta) as int),
        decreases b - a,
    {
        assert(t[(b - 1 - ta) as int] == s@[b - 1]);
        b = b - 1;
    }
    let mut out = String::new();
    push_chars(&mut out, s, a, b);
    assert(out@ =~= t.subrange((a - ta) as int, (b - ta) as int));
    out
}

/// The pieces of the dotted key `s[a0..b0]` (see `key_path_spec`).
fn key_path(s: &[char], a0: usize, b0: usize) -> (r: Vec<String>)
    requires
        a0 <= b0 <= s@.len(),
    ensures
        strings_view(r@) == key_path_spec(s@.subrange(a0 as int, b0 as int)),
        r@.len() >= 1,
{
    let ghost k = s@.subrange(a0 as int, b0 as int);
    let ghost pieces = split_dots_from(k, 0);
    let mut out: Vec<String> = Vec::new();
    let mut i = a0;
    loop
        invariant
            a0 <= i <= b0 <= s@.len(),
            k == s@.subrange(a0 as int, b0 as int),
            pieces == split_dots_from(k, 0),
            pieces == (Seq::new(out@.len(), |j: int| pieces[j])) + split_dots_from(k, (i - a0) as int),
            strings_view(out@) == key_pieces(pieces.take(out@.len() as int)),
        decreases b0 - i,
    {
        let ghost before = out@;
        let mut e = i;
        while e < b0 && s[e] != '.'
            invariant
                a0 <= i <= e <= b0 <= s@.len(),
                k == s@.subrange(a0 as int, b0 as int),
                next_dot(k, (e - a0) as int) == next_dot(k, (i - a0) as int),
            decreases b0 - e,
        {
            assert(k[(e - a0) as int] == s@[e as int]);
            e = e + 1;
        }
        proof {
            lemma_next_dot(k, (i - a0) as int);
            if e < b0 {
                assert(k[(e - a0) as int] == s@[e as int]);
            }
        }
        let piece = key_piece_of(s, i, e);
        proof {
            assert(s@.subrange(i as int, e as int) =~= k.subrange((i - a0) as int, (e - a0) as int));
        }
        out.push(piece);
        proof {
            let n = before.len() as int;
            let rest = split_dots_from(k, (i - a0) as int);
            assert(rest[0] == k.subrange((i - a0) as int, (e - a0) as int));
            assert(pieces[n] == rest[0]) by {
                assert(pieces[n] == ((Seq::new(before.len(), |j: int| pieces[j])) + rest)[n]);
            }
            assert(strings_view(out@) =~= key_pieces(pieces.take(out@.len() as int))) by {
                assert forall|j: int| 0 <= j < out@.len() implies #[trigger] strings_view(out@)[j] == key_pieces(pieces.take(out@.len() as int))[j] by {
                    if j < n {
                        assert(out@[j] == before[j]);
                        assert(strings_view(before)[j] == key_pieces(pieces.take(n))[j]);
                    }
                }
            }
            if e < b0 {
                assert(rest =~= seq![rest[0]] + split_dots_from(k, (e - a0) + 1));
                assert(pieces =~= (Seq::new(out@.len(), |j: int| pieces[j])) + split_dots_from(k, (e - a0) + 1)) by {
                    assert forall|j: int| 0 <= j < pieces.len() implies pieces[j] == ((Seq::new(out@.len(), |j: int| pieces[j])) + split_dots_from(k, (e - a0) + 1))[j] by {
                        if j > n {
                            assert(pieces[j] == ((Seq::new(before.len(), |j: int| pieces[j])) + rest)[j]);
                        }
                    }
                }
            } else {
                assert(rest.len() == 1);
                assert(pieces.len() == out@.len());
                assert(pieces.take(out@.len() as int) =~= pieces);
            }
        }
        if e >= b0 {
            return out;
        }
        i = e + 1;
    }
}

// ── Values ───────────────────────────────────────────────────────────────────

/// A basic string's escapes from `i` on: `\n`, `\t`, `\r`, `\"` and `\\`;
/// any other escape stays as written.
pub open spec fn unescape_from(s: Seq<char>, i: int) -> Seq<char>
    decreases s.len() - i,
{
    if i < 0 || i >= s.len() {
        seq![]
    } else if s[i] == '\\' {
        if i + 1 >= s.len() {
            seq!['\\']
        } else {
            let c = s[i + 1];
            (if c == 'n' {
                seq!['\n']
            } else if c == 't' {
                seq!['\t']
            } else if c == 'r' {
                seq!['\r']
            } else if c == '"' {
                seq!['"']
            } else if c == '\\' {
                seq!['\\']
            } else {
                seq!['\\', c]
            }) + unescape_from(s, i + 2)
        }
    } else {
        seq![s[i]] + unescape_from(s, i + 1)
    }
}

/// The escapes of a basic string: `\n` line feed, `\t` tab, `\r` carriage
/// return, `\"` quote, `\\` backslash.
pub open spec fn basic_escape(e: char) -> Option<char> {
    if e == 'n' {
        Some('\u{a}')
    } else if e == 't' {
        Some('\u{9}')
    } else if e == 'r' {
        Some('\u{d}')
    } else if e == '"' {
        Some('\u{22}')
    } else if e == '\\' {
        Some('\u{5c}')
    } else {
        None
    }
}

proof fn lemma_unescape_drop(s: Seq<char>, k: int, i: int)
    requires
        0 <= k <= i,
        k <= s.len(),
    ensures
        unescape_from(s, i) == unescape_from(s.subrange(k, s.len() as int), i - k),
    decreases s.len() - i,
{
    let u = s.subrange(k, s.len() as int);
    if 0 <= i < s.len() {
        assert(u[i - k] == s[i]);
        if s[i] == '\\' {
            if i + 1 < s.len() {
                assert(u[i + 1 - k] == s[i + 1]);
                lemma_unescape_drop(s, k, i + 2);
            }
        } else {
            lemma_unescape_drop(s, k, i + 1);
        }
    }
}

proof fn lemma_unescape_plain(s: Seq<char>, n: int, i: int)
    requires
        0 <= i <= n <= s.len(),
        forall|j: int| 0 <= j < n ==> s[j] != '\\',
    ensures
        unescape_from(s, i) == s.subrange(i, n) + unescape_from(s, n),
    decreases n - i,
{
    if i < n {
        lemma_unescape_plain(s, n, i + 1);
        assert(s.subrange(i, n) =~= seq![s[i]] + s.subrange(i + 1, n));
    } else {
        assert(s.subrange(i, n) =~= Seq::<char>::empty());
    }
}

/// Unescaping a basic string keeps text without a backslash as it is, and
/// turns each escape of the table (`\n`, `\t`, `\r`, `\"`, `\\`) into the one
/// character it stands for, whatever comes before and after it.
pub proof fn law_unescape_escapes(s1: Seq<char>, e: char, s2: Seq<char>)
    requires
        forall|j: int| 0 <= j < s1.len() ==> s1[j] != '\\',
    ensures
        unescape_from(s1, 0) == s1,
        basic_escape(e) is Some ==> unescape_from(s1 + seq!['\\', e] + s2, 0) == s1 + seq![basic_escape(e).unwrap()]
            + unescape_from(s2, 0),
{
    let n = s1.len() as int;
    lemma_unescape_plain(s1, n, 0);
    assert(s1.subrange(0, n) =~= s1);
    let s = s1 + seq!['\\', e] + s2;
    assert forall|j: int| 0 <= j < n implies s[j] != '\\' by {
        assert(s[j] == s1[j]);
    }
    lemma_unescape_plain(s, n, 0);
    assert(s.subrange(0, n) =~= s1);
    assert(s[n] == '\\');
    assert(s[n + 1] == e);
    lemma_unescape_drop(s, n + 2, n + 2);
    assert(s.subrange(n + 2, s.len() as int) =~= s2);
}

fn unescape(s: &[char], a: usize, b: usize) -> (r: String)
    requires
        a <= b <= s@.len(),
    ensures
        r@ == unescape_from(s@.subrange(a as int, b as int), 0),
{
    let ghost t = s@.subrange(a as int, b as int);
    let mut out = String::new();
    let mut i = a;
    while i < b
        invariant
            a <= i <= b + 1,
            b <= s@.len(),
            t == s@.subrange(a as int, b as int),
            out@ + unescape_from(t, (i - a) as int) == unescape_from(t, 0),
        decreases b + 1 - i,
    {
        let ghost before = out@;
        let c = s[i];
        assert(t[(i - a) as int] == c);
        if c == '\\' {
            if i + 1 >= b {
                push_char(&mut out, '\\');
                assert(before + unescape_from(t, (i - a) as int) =~= out@ + unescape_from(t, (i + 1 - a) as int));
                i = i + 1;
            } else {
                let n = s[i + 1];
                assert(t[(i + 1 - a) as int] == n);
                if n == 'n' {
                    push_char(&mut out, '\n');
                } else if n == 't' {
                    push_char(&mut out, '\t');
                } else if n == 'r' {
                    push_char(&mut out, '\r');
                } else if n == '"' {
                    push_char(&mut out, '"');
                } else if n == '\\' {
                    push_char(&mut out, '\\');
                } else {
                    push_char(&mut out, '\\');
                    push_char(&mut out, n);
                }
                assert(before + unescape_from(t, (i - a) as int) =~= out@ + unescape_from(t, (i + 2 - a) as int));
                i = i + 2;
            }
        } else {
            push_char(&mut out, c);
            assert(before + unescape_from(t, (i - a) as int) =~= out@ + unescape_from(t, (i + 1 - a) as int));
            i = i + 1;
        }
    }
    assert(out@ + unescape_from(t, (i - a) as int) =~= out@);
    out
}

/// An array body split at top-level commas (outside strings and nested
/// brackets), each piece trimmed, empty pieces dropped; `None` when a
/// string is left open.
pub open spec fn split_array_from(b: Seq<char>, i: int, items: Seq<Seq<char>>, cur: Seq<char>, depth: int, q: Option<char>) -> Option<Seq<Seq<char>>>
    decreases b.len() - i,
{
    if i < 0 || i >= b.len() {
        if q is Some {
            None
        } else if trim_spec(cur).len() > 0 {
            Some(items.push(trim_spec(cur)))
        } else {
            Some(items)
        }
    } else {
        let c = b[i];
        match q {
            Some(x) => split_array_from(b, i + 1, items, cur.push(c), depth, if c == x { None } else { q }),
            None => if c == '"' || c == '\'' {
                split_array_from(b, i + 1, items, cur.push(c), depth, Some(c))
            } else if c == '[' {
                split_array_from(b, i + 1, items, cur.push(c), depth + 1, None)
            } else if c == ']' {
                split_array_from(b, i + 1, items, cur.push(c), depth - 1, None)
            } else if c == ',' && depth == 0 {
                split_array_from(
                    b,
                    i + 1,
                    if trim_spec(cur).len() > 0 { items.push(trim_spec(cur)) } else { items },
                    seq![],
                    depth,
                    None,
                )
            } else {
                split_array_from(b, i + 1, items, cur.push(c), depth, None)
            },
        }
    }
}

pub open spec fn split_array_spec(b: Seq<char>) -> Option<Seq<Seq<char>>> {
    split_array_from(b, 0, seq![], seq![], 0, None)
}

pub proof fn lemma_trim_len(s: Seq<char>)
    ensures
        trim_spec(s).len() <= s.len(),
{
    lemma_trim(s, 0, 0, s.len() as int);
    lemma_trim(s, 0, trim_start_at(s, 0), s.len() as int);
}

/// Every piece of a split array body is no longer than the body.
pub proof fn lemma_split_lens(b: Seq<char>, i: int, items: Seq<Seq<char>>, cur: Seq<char>, depth: int, q: Option<char>)
    requires
        0 <= i <= b.len(),
        cur.len() <= i,
        forall|k: int| 0 <= k < items.len() ==> (#[trigger] items[k]).len() <= b.len(),
    ensures
        split_array_from(b, i, items, cur, depth, q) matches Some(r) ==> forall|k: int| 0 <= k < r.len() ==> (
        #[trigger] r[k]).len() <= b.len(),
    decreases b.len() - i,
{
    lemma_trim_len(cur);
    if i < b.len() {
        let c = b[i];
        match q {
            Some(x) => lemma_split_lens(b, i + 1, items, cur.push(c), depth, if c == x { None } else { q }),
            None => if c == '"' || c == '\'' {
                lemma_split_lens(b, i + 1, items, cur.push(c), depth, Some(c));
            } else if c == '[' {
                lemma_split_lens(b, i + 1, items, cur.push(c), depth + 1, None);
            } else if c == ']' {
                lemma_split_lens(b, i + 1, items, cur.push(c), depth - 1, None);
            } else if c == ',' && depth == 0 {
                let items2 = if trim_spec(cur).len() > 0 { items.push(trim_spec(cur)) } else { items };
                assert forall|k: int| 0 <= k < items2.len() implies (#[trigger] items2[k]).len() <= b.len() by {
                    if k < items.len() {
                        assert(items2[k] == items[k]);
                    }
                }
                lemma_split_lens(b, i + 1, items2, seq![], depth, None);
            } else {
                lemma_split_lens(b, i + 1, items, cur.push(c), depth, None);
            },
        }
    } else {
        if q is None && trim_spec(cur).len() > 0 {
            let r = items.push(trim_spec(cur));
            assert forall|k: int| 0 <= k < r.len() implies (#[trigger] r[k]).len() <= b.len() by {
                if k < items.len() {
                    assert(r[k] == items[k]);
                }
            }
        }
    }
}

fn trimmed_string(cur: &Vec<char>) -> (r: Vec<char>)
    ensures
        r@ == trim_spec(cur@),
{
    let (a, b) = trim_range(cur.as_slice(), 0, cur.len());
    assert(cur@.subrange(0, cur@.len() as int) =~= cur@);
    let mut out: Vec<char> = Vec::new();
    let mut i = a;
    while i < b
        invariant
            a <= i <= b <= cur@.len(),
            out@ == cur@.subrange(a as int, i as int),
        decreases b - i,
    {
        out.push(cur[i]);
        i = i + 1;
        assert(out@ =~= cur@.subrange(a as int, i as int));
    }
    out
}

/// The pieces of an array body `s[a..b]`, or `None` for an open string.
fn split_array(s: &[char], a: usize, b: usize) -> (r: Option<Vec<Vec<char>>>)
    requires
        a <= b <= s@.len(),
        b - a < usize::MAX / 4,
    ensures
        match split_array_spec(s@.subrange(a as int, b as int)) {
            None => r is None,
            Some(items) => r matches Some(v) && v@.len() == items.len() && forall|k: int| 0 <= k < items.len() ==> (#[trigger] v@[k])@ == items[k],
        },
{
    let ghost body = s@.subrange(a as int, b as int);
    let ghost total = split_array_spec(body);
    let mut items: Vec<Vec<char>> = Vec::new();
    let mut cur: Vec<char> = Vec::new();
    let mut depth: i64 = 0;
    let mut q: Option<char> = None;
    let mut i = a;
    assert(Seq::new(items@.len(), |k: int| items@[k]@) =~= Seq::<Seq<char>>::empty());
    while i < b
        invariant
            a <= i <= b <= s@.len(),
            b - a < usize::MAX / 4,
            body == s@.subrange(a as int, b as int),
            -(i - a) <= depth <= i - a,
            split_array_from(body, (i - a) as int, Seq::new(items@.len(), |k: int| items@[k]@), cur@, depth as int, q) == total,
        decreases b - i,
    {
        let c = s[i];
        assert(body[(i - a) as int] == c);
        let ghost old_items = Seq::new(items@.len(), |k: int| items@[k]@);
        match q {
            Some(x) => {
                cur.push(c);
                if c == x {
                    q = None;
                }
            },
            None => {
                if c == '"' || c == '\'' {
                    q = Some(c);
                    cur.push(c);
                } else if c == '[' {
                    depth = depth + 1;
                    cur.push(c);
                } else if c == ']' {
                    depth = depth - 1;
                    cur.push(c);
                } else if c == ',' && depth == 0 {
                    let t = trimmed_string(&cur);
                    if t.len() > 0 {
                        items.push(t);
                        assert(Seq::new(items@.len(), |k: int| items@[k]@) =~= old_items.push(trim_spec(cur@)));
                    }
                    cur = Vec::new();
                } else {
                    cur.push(c);
                }
            },
        }
        i = i + 1;
    }
    if q.is_some() {
        return None;
    }
    let ghost old_items = Seq::new(items@.len(), |k: int| items@[k]@);
    let t = trimmed_string(&cur);
    if t.len() > 0 {
        items.push(t);
        assert(Seq::new(items@.len(), |k: int| items@[k]@) =~= old_items.push(trim_spec(cur@)));
    }
    Some(items)
}

pub open spec fn line_msg(line: int, what: Seq<char>) -> Seq<char> {
    "टोमल: पंक्ति "@ + decimal_spec(line as nat) + what
}

fn line_message(line: usize, what: &str) -> (r: String)
    ensures
        r@ == line_msg(line as int, what@),
{
    let mut r = "टोमल: पंक्ति ".to_owned();
    let d = decimal(line as u64);
    let ds = chars_to_string(d.as_slice());
    crate::text::push_str(&mut r, ds.as_str());
    crate::text::push_str(&mut r, what);
    r
}

pub open spec fn all_digits(s: Seq<char>) -> bool {
    forall|i: int| 0 <= i < s.len() ==> '0' <= #[trigger] s[i] <= '9'
}

/// What std `str::parse::<i64>` accepts: an optional `+` or `-`, then one or
/// more ASCII digits, the value within the range of `i64`.
pub open spec fn i64_literal(s: Seq<char>) -> Option<int> {
    let signed = s.len() > 0 && (s[0] == '-' || s[0] == '+');
    let d = if signed { s.drop_first() } else { s };
    if d.len() == 0 || !all_digits(d) {
        None
    } else {
        let v = if s[0] == '-' { -(digits_value(d) as int) } else { digits_value(d) as int };
        if i64::MIN <= v <= i64::MAX {
            Some(v)
        } else {
            None
        }
    }
}

/// std `str::parse::<i64>`, which its documentation describes as an
/// optional `+` or `-` sign followed by decimal digits only, failing on
/// anything else and on values outside `i64`.
#[verifier::external_body]
pub(crate) fn parse_i64(s: &str) -> (r: Option<i64>)
    ensures
        match i64_literal(s@) {
            Some(v) => r == Some(v as i64),
            None => r is None,
        },
{
    s.parse::<i64>().ok()
}

/// The text without `_` digit separators.
pub open spec fn drop_underscores(s: Seq<char>) -> Seq<char>
    decreases s.len(),
{
    if s.len() == 0 {
        seq![]
    } else {
        drop_underscores(s.drop_last()) + if s.last() == '_' { seq![] } else { seq![s.last()] }
    }
}

/// The values of array items, in order, or the first item's error. Items
/// are shorter than `bound` (the text they came from).
pub open spec fn parse_list_spec(items: Seq<Seq<char>>, line: int, bound: int) -> Result<Seq<ConfModel>, Seq<char>>
    decreases bound, items.len(),
{
    if items.len() == 0 {
        Ok(seq![])
    } else if items[0].len() >= bound {
        Err(seq![])
    } else {
        match parse_value_spec(items[0], line) {
            Err(e) => Err(e),
            Ok(v) => match parse_list_spec(items.drop_first(), line, bound) {
                Err(e) => Err(e),
                Ok(vs) => Ok(seq![v] + vs),
            },
        }
    }
}

/// A value: quoted strings (basic ones unescaped), `true`/`false`, arrays of
/// values, integers (with `_` separators), else a float or bare string.
pub open spec fn parse_value_spec(raw: Seq<char>, line: int) -> Result<ConfModel, Seq<char>>
    decreases raw.len() + 1, 0int,
{
    let s = trim_spec(raw);
    if s.len() == 0 {
        Err(line_msg(line, " — मान खाली है"@))
    } else if s.len() >= 2 && s[0] == '"' && s.last() == '"' {
        Ok(ConfModel::Str(unescape_from(s.subrange(1, s.len() - 1), 0)))
    } else if s.len() >= 2 && s[0] == '\'' && s.last() == '\'' {
        Ok(ConfModel::Str(s.subrange(1, s.len() - 1)))
    } else if s == "true"@ {
        Ok(ConfModel::Bool(true))
    } else if s == "false"@ {
        Ok(ConfModel::Bool(false))
    } else if s.len() >= 2 && s[0] == '[' && s.last() == ']' {
        match split_array_spec(s.subrange(1, s.len() - 1)) {
            None => Err(line_msg(line, " — सरणी में अधूरा वाक्य"@)),
            Some(items) => match parse_list_spec(items, line, raw.len() as int) {
                Err(e) => Err(e),
                Ok(vs) => Ok(ConfModel::List(vs)),
            },
        }
    } else {
        let cleaned = drop_underscores(s);
        match i64_literal(cleaned) {
            Some(v) => Ok(ConfModel::Int(v)),
            None => Ok(ConfModel::FloatOrStr(cleaned, s)),
        }
    }
}

pub(crate) fn sub_chars(s: &[char], a: usize, b: usize) -> (r: Vec<char>)
    requires
        a <= b <= s@.len(),
    ensures
        r@ == s@.subrange(a as int, b as int),
{
    let mut out: Vec<char> = Vec::new();
    let mut i = a;
    while i < b
        invariant
            a <= i <= b <= s@.len(),
            out@ == s@.subrange(a as int, i as int),
        decreases b - i,
    {
        out.push(s[i]);
        i = i + 1;
        assert(out@ =~= s@.subrange(a as int, i as int));
    }
    out
}

fn without_underscores(s: &[char], a: usize, b: usize) -> (r: Vec<char>)
    requires
        a <= b <= s@.len(),
    ensures
        r@ == drop_underscores(s@.subrange(a as int, b as int)),
{
    let mut out: Vec<char> = Vec::new();
    let mut i = a;
    while i < b
        invariant
            a <= i <= b <= s@.len(),
            out@ == drop_underscores(s@.subrange(a as int, i as int)),
        decreases b - i,
    {
        assert(s@.subrange(a as int, i + 1).drop_last() =~= s@.subrange(a as int, i as int));
        if s[i] != '_' {
            out.push(s[i]);
        }
        i = i + 1;
        assert(out@ =~= drop_underscores(s@.subrange(a as int, i as int)));
    }
    out
}

/// A value read from `raw` on line `line` (see `parse_value_spec`).
fn parse_value(raw: &[char], line: usize) -> (r: Result<ConfValue, String>)
    requires
        raw@.len() < usize::MAX / 4,
    ensures
        match parse_value_spec(raw@, line as int) {
            Err(e) => r matches Err(x) && x@ == e,
            Ok(m) => r matches Ok(v) && v@ == m,
        },
    decreases raw@.len(),
{
    let (a, b) = trim_range(raw, 0, raw.len());
    assert(raw@.subrange(0, raw@.len() as int) =~= raw@);
    let ghost s = raw@.subrange(a as int, b as int);
    let n = b - a;
    if n == 0 {
        return Err(line_message(line, " — मान खाली है"));
    }
    if n >= 2 && raw[a] == '"' && raw[b - 1] == '"' {
        assert(s.subrange(1, s.len() - 1) =~= raw@.subrange(a + 1, b - 1));
        let u = unescape(raw, a + 1, b - 1);
        return Ok(ConfValue::Str(u));
    }
    if n >= 2 && raw[a] == '\'' && raw[b - 1] == '\'' {
        let mut t = String::new();
        push_chars(&mut t, raw, a + 1, b - 1);
        assert(t@ =~= s.subrange(1, s.len() - 1));
        return Ok(ConfValue::Str(t));
    }
    let tv = sub_chars(raw, a, b);
    let t_true = str_chars("true");
    let t_false = str_chars("false");
    if crate::text::chars_eq(tv.as_slice(), t_true.as_slice()) {
        return Ok(ConfValue::Bool(true));
    }
    if crate::text::chars_eq(tv.as_slice(), t_false.as_slice()) {
        return Ok(ConfValue::Bool(false));
    }
    if n >= 2 && raw[a] == '[' && raw[b - 1] == ']' {
        proof {
            lemma_trim_len(raw@);
            assert(s.subrange(1, s.len() - 1) =~= raw@.subrange(a + 1, b - 1));
            lemma_split_lens(s.subrange(1, s.len() - 1), 0, seq![], seq![], 0, None);
        }
        let items = match split_array(raw, a + 1, b - 1) {
            None => {
                return Err(line_message(line, " — सरणी में अधूरा वाक्य"));
            },
            Some(items) => items,
        };
        let ghost specs = split_array_spec(s.subrange(1, s.len() - 1))->Some_0;
        let ghost bound = raw@.len() as int;
        let mut out: Vec<ConfValue> = Vec::new();
        let mut k: usize = 0;
        let ghost whole = parse_value_spec(raw@, line as int);
        assert(s == trim_spec(raw@));
        assert(s.len() == n);
        assert(s[0] == raw@[a as int]);
        assert(s.last() == raw@[b - 1]);
        assert(tv@ == s);
        assert(s != "true"@);
        assert(s != "false"@);
        assert(s.subrange(1, s.len() - 1) =~= raw@.subrange(a + 1, b - 1));
        assert(whole == match parse_list_spec(specs, line as int, bound) {
            Err(e) => Err(e),
            Ok(vs) => Ok(ConfModel::List(vs)),
        });
        proof {
            assert(specs.subrange(0, specs.len() as int) =~= specs);
            match parse_list_spec(specs, line as int, bound) {
                Err(_) => {},
                Ok(vs) => {
                    assert(list_view(out@) + vs =~= vs);
                },
            }
        }
        while k < items.len()
            invariant
                whole == parse_value_spec(raw@, line as int),
                whole == match parse_list_spec(specs, line as int, bound) {
                    Err(e) => Err(e),
                    Ok(vs) => Ok(ConfModel::List(vs)),
                },
                bound == raw@.len(),
                k <= items@.len(),
                items@.len() == specs.len(),
                forall|j: int| 0 <= j < specs.len() ==> (#[trigger] items@[j])@ == specs[j],
                forall|j: int| 0 <= j < specs.len() ==> (#[trigger] specs[j]).len() <= s.len() - 2,
                s.len() <= raw@.len(),
                raw@.len() < usize::MAX / 4,
                parse_list_spec(specs, line as int, bound) == match parse_list_spec(specs.subrange(k as int, specs.len() as int), line as int, bound) {
                    Err(e) => Err(e),
                    Ok(vs) => Ok(list_view(out@) + vs),
                },
            decreases items@.len() - k,
        {
            let ghost before = out@;
            let ghost tail = specs.subrange(k as int, specs.len() as int);
            assert(tail[0] == specs[k as int]);
            assert(tail.drop_first() =~= specs.subrange(k + 1, specs.len() as int));
            match parse_value(items[k].as_slice(), line) {
                Err(e) => {
                    return Err(e);
                },
                Ok(v) => {
                    out.push(v);
                    assert(list_view(out@) =~= list_view(before).push(v@));
                    proof {
                        match parse_list_spec(specs.subrange(k + 1, specs.len() as int), line as int, bound) {
                            Err(_) => {},
                            Ok(vs) => {
                                assert(list_view(before) + (seq![v@] + vs) =~= list_view(out@) + vs);
                            },
                        }
                    }
                },
            }
            k = k + 1;
        }
        assert(specs.subrange(k as int, specs.len() as int) =~= Seq::<Seq<char>>::empty());
        assert(list_view(out@) + seq![] =~= list_view(out@));
        let ghost lv = list_view(out@);
        let r = ConfValue::List(out);
        proof {
            let m = cv(r);
            assert(m matches ConfModel::List(x) && x =~= lv);
        }
        return Ok(r);
    }
    let cleaned = without_underscores(raw, a, b);
    let cs = chars_to_string(cleaned.as_slice());
    match parse_i64(cs.as_str()) {
        Some(v) => Ok(ConfValue::Int(v)),
        None => {
            let ts = chars_to_string(tv.as_slice());
            Ok(ConfValue::FloatOrStr(cs, ts))
        },
    }
}

// ── Tables ───────────────────────────────────────────────────────────────────

/// Where key `k` sits in table `d` from `i` on (or the end).
pub open spec fn key_index(d: Seq<(Seq<char>, ConfModel)>, k: Seq<char>, i: int) -> int
    decreases d.len() - i,
{
    if i < 0 || i >= d.len() || d[i].0 == k {
        i
    } else {
        key_index(d, k, i + 1)
    }
}

/// The table with `k` set to `v`: replaced where it is, else added last.
pub open spec fn dict_set(d: Seq<(Seq<char>, ConfModel)>, k: Seq<char>, v: ConfModel) -> Seq<(Seq<char>, ConfModel)> {
    let j = key_index(d, k, 0);
    if j < d.len() {
        d.update(j, (k, v))
    } else {
        d.push((k, v))
    }
}

/// The value of `k` in `d`, if any.
pub open spec fn dict_get(d: Seq<(Seq<char>, ConfModel)>, k: Seq<char>) -> Option<ConfModel> {
    let j = key_index(d, k, 0);
    if 0 <= j < d.len() {
        Some(d[j].1)
    } else {
        None
    }
}

/// `v` stored at the key path: the last key set in the innermost table,
/// tables made on the way (a non-table value in the way is replaced by one).
pub open spec fn insert_path_spec(d: Seq<(Seq<char>, ConfModel)>, path: Seq<Seq<char>>, v: ConfModel) -> Seq<(Seq<char>, ConfModel)>
    decreases path.len(),
{
    if path.len() == 0 {
        d
    } else if path.len() == 1 {
        dict_set(d, path[0], v)
    } else {
        let inner = match dict_get(d, path[0]) {
            Some(ConfModel::Dict(x)) => x,
            _ => seq![],
        };
        dict_set(d, path[0], ConfModel::Dict(insert_path_spec(inner, path.drop_first(), v)))
    }
}

pub proof fn lemma_key_index(d: Seq<(Seq<char>, ConfModel)>, k: Seq<char>, i: int)
    requires
        0 <= i <= d.len(),
    ensures
        i <= key_index(d, k, i) <= d.len(),
        key_index(d, k, i) < d.len() ==> d[key_index(d, k, i)].0 == k,
    decreases d.len() - i,
{
    if i < d.len() && d[i].0 != k {
        lemma_key_index(d, k, i + 1);
    }
}

/// Where `key` sits in `d` (see `key_index`).
pub(crate) fn find_key(d: &Vec<(String, ConfValue)>, key: &str) -> (r: usize)
    ensures
        r == key_index(dict_view(d@), key@, 0),
        r <= d@.len(),
{
    let ghost dv = dict_view(d@);
    proof {
        lemma_key_index(dv, key@, 0);
    }
    let mut i: usize = 0;
    while i < d.len()
        invariant
            dv == dict_view(d@),
            i <= d@.len(),
            key_index(dv, key@, i as int) == key_index(dv, key@, 0),
        decreases d@.len() - i,
    {
        assert(dv[i as int].0 == d@[i as int].0@);
        if crate::text::str_eq(d[i].0.as_str(), key) {
            return i;
        }
        i = i + 1;
    }
    i
}

/// Stores `val` at `path` (see `insert_path_spec`).
fn insert_path(root: &mut Vec<(String, ConfValue)>, path: &[String], val: ConfValue)
    ensures
        dict_view(final(root)@) == insert_path_spec(dict_view(old(root)@), strings_view(path@), val@),
    decreases path@.len(),
{
    let ghost d0 = dict_view(root@);
    let ghost p = strings_view(path@);
    if path.len() == 0 {
        return;
    }
    let key = &path[0];
    assert(p[0] == key@);
    let j = find_key(root, key.as_str());
    proof {
        lemma_key_index(d0, key@, 0);
    }
    if path.len() == 1 {
        if j < root.len() {
            root.set(j, (key.clone(), val));
            assert(dict_view(root@) =~= d0.update(j as int, (key@, val@)));
        } else {
            root.push((key.clone(), val));
            assert(dict_view(root@) =~= d0.push((key@, val@)));
        }
        return;
    }
    let ghost rest = p.drop_first();
    assert(strings_view(path@.subrange(1, path@.len() as int)) =~= rest);
    if j < root.len() {
        let (k, prev) = root.remove(j);
        assert(d0[j as int] == (k@, prev@));
        let mut inner = match prev {
            ConfValue::Dict(x) => x,
            _ => Vec::new(),
        };
        let ghost inner0 = dict_view(inner@);
        assert(inner0 == match d0[j as int].1 {
            ConfModel::Dict(x) => x,
            _ => Seq::<(Seq<char>, ConfModel)>::empty(),
        }) by {
            match prev {
                ConfValue::Dict(x) => {
                    assert(dict_view(x@) =~= cv(prev)->Dict_0);
                },
                _ => {
                    assert(dict_view(inner@) =~= Seq::<(Seq<char>, ConfModel)>::empty());
                },
            }
        }
        insert_path(&mut inner, vstd::slice::slice_subrange(path, 1, path.len()), val);
        let ghost inner1 = dict_view(inner@);
        let nv = ConfValue::Dict(inner);
        assert(nv@ == ConfModel::Dict(inner1)) by {
            assert(cv(nv)->Dict_0 =~= inner1);
        }
        let ghost mid = root@;
        root.insert(j, (k, nv));
        assert(dict_view(root@) =~= d0.update(j as int, (key@, ConfModel::Dict(inner1)))) by {
            assert(mid =~= old(root)@.remove(j as int));
            assert(k@ == key@);
            assert forall|i: int| 0 <= i < d0.len() implies #[trigger] dict_view(root@)[i] == d0.update(j as int, (key@, ConfModel::Dict(inner1)))[i] by {
                if i < j {
                    assert(root@[i] == old(root)@[i]);
                } else if i > j {
                    assert(root@[i] == old(root)@[i]);
                } else {
                    assert(root@[i] == (k, nv));
                }
            }
        }
    } else {
        let mut inner: Vec<(String, ConfValue)> = Vec::new();
        assert(dict_view(inner@) =~= Seq::<(Seq<char>, ConfModel)>::empty());
        insert_path(&mut inner, vstd::slice::slice_subrange(path, 1, path.len()), val);
        let ghost inner1 = dict_view(inner@);
        let nv = ConfValue::Dict(inner);
        assert(nv@ == ConfModel::Dict(inner1)) by {
            assert(cv(nv)->Dict_0 =~= inner1);
        }
        root.push((key.clone(), nv));
        assert(dict_view(root@) =~= d0.push((key@, ConfModel::Dict(inner1))));
    }
}

// ── Reading TOML and INI ─────────────────────────────────────────────────────

/// The first `c` at or after `i` (or the end).
pub open spec fn first_index(s: Seq<char>, c: char, i: int) -> int
    decreases s.len() - i,
{
    if i < 0 || i >= s.len() || s[i] == c {
        i
    } else {
        first_index(s, c, i + 1)
    }
}

pub proof fn lemma_first_index(s: Seq<char>, c: char, i: int)
    requires
        0 <= i <= s.len(),
    ensures
        i <= first_index(s, c, i) <= s.len(),
    decreases s.len() - i,
{
    if i < s.len() && s[i] != c {
        lemma_first_index(s, c, i + 1);
    }
}

pub(crate) fn find_char(s: &[char], a: usize, b: usize, c: char) -> (r: usize)
    requires
        a <= b <= s@.len(),
    ensures
        a <= r <= b,
        r - a == first_index(s@.subrange(a as int, b as int), c, 0),
{
    let ghost t = s@.subrange(a as int, b as int);
    proof {
        lemma_first_index(t, c, 0);
    }
    let mut i = a;
    while i < b && s[i] != c
        invariant
            a <= i <= b <= s@.len(),
            t == s@.subrange(a as int, b as int),
            first_index(t, c, (i - a) as int) == first_index(t, c, 0),
        decreases b - i,
    {
        assert(t[(i - a) as int] == s@[i as int]);
        i = i + 1;
    }
    if i < b {
        assert(t[(i - a) as int] == s@[i as int]);
    }
    i
}

/// The lines from `i` on, with the table `root` read so far and the keys
/// of the current `[table]`.
pub open spec fn toml_lines(ls: Seq<Seq<char>>, i: int, root: Seq<(Seq<char>, ConfModel)>, cur: Seq<Seq<char>>) -> Result<Seq<(Seq<char>, ConfModel)>, Seq<char>>
    decreases ls.len() - i,
{
    if i < 0 || i >= ls.len() {
        Ok(root)
    } else {
        let line = trim_spec(strip_comment_spec(ls[i]));
        if line.len() == 0 {
            toml_lines(ls, i + 1, root, cur)
        } else if line[0] == '[' && line.last() == ']' {
            let name = line.subrange(1, line.len() - 1);
            if name.len() > 0 && name[0] == '[' {
                Err(line_msg(i + 1, " — [[array-of-tables]] समर्थित नहीं"@))
            } else {
                let path = key_path_spec(name);
                toml_lines(ls, i + 1, insert_path_spec(root, path, ConfModel::Dict(seq![])), path)
            }
        } else {
            let eq = first_index(line, '=', 0);
            if eq >= line.len() {
                Err(line_msg(i + 1, " — '=' नहीं मिला"@))
            } else {
                match parse_value_spec(line.subrange(eq + 1, line.len() as int), i + 1) {
                    Err(e) => Err(e),
                    Ok(v) => toml_lines(
                        ls,
                        i + 1,
                        insert_path_spec(root, cur + key_path_spec(trim_spec(line.subrange(0, eq))), v),
                        cur,
                    ),
                }
            }
        }
    }
}

/// A TOML text read into one table: each `[a.b]` header starts (or empties)
/// that table, each `key = value` line sets a key in the current table;
/// the first malformed line is an error naming it.
pub open spec fn toml_spec(text: Seq<char>) -> Result<ConfModel, Seq<char>> {
    match toml_lines(lines_spec(text), 0, seq![], seq![]) {
        Err(e) => Err(e),
        Ok(d) => Ok(ConfModel::Dict(d)),
    }
}

/// toml_पढ़ो: reads a TOML text (see `toml_spec`).
pub fn toml_read(text: &str) -> (r: Result<ConfValue, String>)
    requires
        text@.len() < usize::MAX / 4,
    ensures
        match toml_spec(text@) {
            Err(e) => r matches Err(x) && x@ == e,
            Ok(m) => r matches Ok(v) && v@ == m,
        },
{
    let s = str_chars(text);
    let ranges = line_ranges(&s);
    let ghost ls = lines_spec(s@);
    let mut root: Vec<(String, ConfValue)> = Vec::new();
    let mut cur: Vec<String> = Vec::new();
    let mut i: usize = 0;
    assert(dict_view(root@) =~= Seq::<(Seq<char>, ConfModel)>::empty());
    assert(strings_view(cur@) =~= Seq::<Seq<char>>::empty());
    while i < ranges.len()
        invariant
            s@ == text@,
            s@.len() < usize::MAX / 4,
            ls == lines_spec(s@),
            ranges@.len() == ls.len(),
            forall|k: int| 0 <= k < ranges@.len() ==> (#[trigger] ranges@[k]).0 <= ranges@[k].1 <= s@.len()
                && s@.subrange(ranges@[k].0 as int, ranges@[k].1 as int) == ls[k],
            i <= ranges@.len(),
            toml_lines(ls, i as int, dict_view(root@), strings_view(cur@)) == toml_lines(ls, 0, seq![], seq![]),
        decreases ranges@.len() - i,
    {
        let (la, lb) = ranges[i];
        let ghost raw = ls[i as int];
        assert(s@.subrange(la as int, lb as int) == raw);
        let ce = comment_end(s.as_slice(), la, lb);
        let (a, b) = trim_range(s.as_slice(), la, ce);
        let ghost line = s@.subrange(a as int, b as int);
        assert(line == trim_spec(strip_comment_spec(raw)));
        if a == b {
            i = i + 1;
            continue;
        }
        assert(line[0] == s@[a as int] && line.last() == s@[b - 1]);
        if s[a] == '[' && s[b - 1] == ']' {
            if b - a >= 3 && s[a + 1] == '[' {
                assert(line.subrange(1, line.len() - 1)[0] == s@[a + 1]);
                return Err(line_message(i + 1, " — [[array-of-tables]] समर्थित नहीं"));
            }
            assert(line.subrange(1, line.len() - 1) =~= s@.subrange(a + 1, b - 1));
            let path = key_path(s.as_slice(), a + 1, b - 1);
            let empty: Vec<(String, ConfValue)> = Vec::new();
            let ev = ConfValue::Dict(empty);
            assert(ev@ == ConfModel::Dict(seq![])) by {
                assert(cv(ev)->Dict_0 =~= Seq::<(Seq<char>, ConfModel)>::empty());
            }
            insert_path(&mut root, path.as_slice(), ev);
            cur = path;
            i = i + 1;
            continue;
        }
        let eq = find_char(s.as_slice(), a, b, '=');
        if eq >= b {
            return Err(line_message(i + 1, " — '=' नहीं मिला"));
        }
        assert(line.subrange(eq - a + 1, line.len() as int) =~= s@.subrange(eq + 1, b as int));
        let vs = sub_chars(s.as_slice(), eq + 1, b);
        let v = match parse_value(vs.as_slice(), i + 1) {
            Err(e) => {
                return Err(e);
            },
            Ok(v) => v,
        };
        let (ka, kb) = trim_range(s.as_slice(), a, eq);
        assert(line.subrange(0, eq - a) =~= s@.subrange(a as int, eq as int));
        let keys = key_path(s.as_slice(), ka, kb);
        let mut path: Vec<String> = Vec::new();
        let mut k: usize = 0;
        while k < cur.len()
            invariant
                k <= cur@.len(),
                path@.len() == k,
                strings_view(path@) == strings_view(cur@).take(k as int),
            decreases cur@.len() - k,
        {
            path.push(cur[k].clone());
            k = k + 1;
            assert(strings_view(path@) =~= strings_view(cur@).take(k as int));
        }
        assert(strings_view(cur@).take(cur@.len() as int) =~= strings_view(cur@));
        assert(strings_view(cur@) + strings_view(keys@).take(0) =~= strings_view(cur@));
        let mut k2: usize = 0;
        while k2 < keys.len()
            invariant
                k2 <= keys@.len(),
                path@.len() == cur@.len() + k2,
                strings_view(path@) == strings_view(cur@) + strings_view(keys@).take(k2 as int),
            decreases keys@.len() - k2,
        {
            let ghost before = path@;
            path.push(keys[k2].clone());
            k2 = k2 + 1;
            assert(strings_view(path@) =~= strings_view(before).push(keys@[k2 - 1]@));
            assert(strings_view(keys@).take(k2 as int) =~= strings_view(keys@).take(k2 - 1).push(keys@[k2 - 1]@));
            assert(strings_view(path@) =~= strings_view(cur@) + strings_view(keys@).take(k2 as int));
        }
        assert(strings_view(cur@).take(cur@.len() as int) =~= strings_view(cur@));
        assert(strings_view(keys@).take(keys@.len() as int) =~= strings_view(keys@));
        insert_path(&mut root, path.as_slice(), v);
        i = i + 1;
    }
    let r = ConfValue::Dict(root);
    assert(cv(r)->Dict_0 =~= dict_view(root@));
    Ok(r)
}

/// Strips every `"` from both ends.
pub open spec fn dq_start(s: Seq<char>, i: int) -> int
    decreases s.len() - i,
{
    if 0 <= i < s.len() && s[i] == '"' {
        dq_start(s, i + 1)
    } else {
        i
    }
}

pub open spec fn dq_end(s: Seq<char>, lo: int, j: int) -> int
    decreases j - lo,
{
    if lo < j && j <= s.len() && s[j - 1] == '"' {
        dq_end(s, lo, j - 1)
    } else {
        j
    }
}

pub open spec fn trim_dq(s: Seq<char>) -> Seq<char> {
    let a = dq_start(s, 0);
    s.subrange(a, dq_end(s, a, s.len() as int))
}

/// The INI lines from `i` on: `#`/`;` comments skipped, `[section]` opens a
/// table (kept if there already is one), `key = value` or `key: value` sets a
/// string — in the current section's table, or at the top before any.
pub open spec fn ini_lines(ls: Seq<Seq<char>>, i: int, root: Seq<(Seq<char>, ConfModel)>, section: Option<Seq<char>>) -> Seq<(Seq<char>, ConfModel)>
    decreases ls.len() - i,
{
    if i < 0 || i >= ls.len() {
        root
    } else {
        let line = trim_spec(ls[i]);
        if line.len() == 0 || line[0] == '#' || line[0] == ';' {
            ini_lines(ls, i + 1, root, section)
        } else if line[0] == '[' && line.last() == ']' {
            let name = trim_spec(line.subrange(1, line.len() - 1));
            let root2 = if dict_get(root, name) is Some { root } else { dict_set(root, name, ConfModel::Dict(seq![])) };
            ini_lines(ls, i + 1, root2, Some(name))
        } else {
            let e = first_index(line, '=', 0);
            let sep = if e < line.len() { e } else { first_index(line, ':', 0) };
            if sep >= line.len() {
                ini_lines(ls, i + 1, root, section)
            } else {
                let key = trim_spec(line.subrange(0, sep));
                let val = ConfModel::Str(trim_dq(trim_spec(line.subrange(sep + 1, line.len() as int))));
                match section {
                    Some(sec) => match dict_get(root, sec) {
                        Some(ConfModel::Dict(d)) => ini_lines(ls, i + 1, dict_set(root, sec, ConfModel::Dict(dict_set(d, key, val))), section),
                        _ => ini_lines(ls, i + 1, root, section),
                    },
                    None => ini_lines(ls, i + 1, dict_set(root, key, val), section),
                }
            }
        }
    }
}

pub open spec fn ini_spec(text: Seq<char>) -> ConfModel {
    ConfModel::Dict(ini_lines(lines_spec(text), 0, seq![], None))
}

proof fn lemma_dq(s: Seq<char>, i: int, lo: int, j: int)
    requires
        0 <= i <= s.len(),
        0 <= lo <= j <= s.len(),
    ensures
        i <= dq_start(s, i) <= s.len(),
        lo <= dq_end(s, lo, j) <= j,
    decreases s.len() - i + j - lo,
{
    if i < s.len() && s[i] == '"' {
        lemma_dq(s, i + 1, lo, j);
    } else if lo < j && s[j - 1] == '"' {
        lemma_dq(s, i, lo, j - 1);
    }
}

fn trim_dq_range(s: &[char], a0: usize, b0: usize) -> (r: (usize, usize))
    requires
        a0 <= b0 <= s@.len(),
    ensures
        a0 <= r.0 <= r.1 <= b0,
        s@.subrange(r.0 as int, r.1 as int) == trim_dq(s@.subrange(a0 as int, b0 as int)),
{
    let ghost t = s@.subrange(a0 as int, b0 as int);
    proof {
        lemma_dq(t, 0, 0, t.len() as int);
    }
    let mut a = a0;
    while a < b0 && s[a] == '"'
        invariant
            a0 <= a <= b0 <= s@.len(),
            t == s@.subrange(a0 as int, b0 as int),
            dq_start(t, (a - a0) as int) == dq_start(t, 0),
        decreases b0 - a,
    {
        assert(t[(a - a0) as int] == s@[a as int]);
        a = a + 1;
    }
    proof {
        lemma_dq(t, (a - a0) as int, (a - a0) as int, t.len() as int);
    }
    let mut b = b0;
    while b > a && s[b - 1] == '"'
        invariant
            a0 <= a <= b <= b0 <= s@.len(),
            t == s@.subrange(a0 as int, b0 as int),
            dq_end(t, (a - a0) as int, (b - a0) as int) == dq_end(t, (a - a0) as int, (b0 - a0) as int),
        decreases b - a,
    {
        assert(t[(b - 1 - a0) as int] == s@[b - 1]);
        b = b - 1;
    }
    assert(s@.subrange(a as int, b as int) =~= t.subrange((a - a0) as int, (b - a0) as int));
    (a, b)
}

pub(crate) fn string_of(s: &[char], a: usize, b: usize) -> (r: String)
    requires
        a <= b <= s@.len(),
    ensures
        r@ == s@.subrange(a as int, b as int),
{
    let mut r = String::new();
    push_chars(&mut r, s, a, b);
    assert(r@ =~= s@.subrange(a as int, b as int));
    r
}

/// ini_पढ़ो: reads an INI text (see `ini_spec`).
pub fn ini_read(text: &str) -> (r: ConfValue)
    ensures
        r@ == ini_spec(text@),
{
    let s = str_chars(text);
    let ranges = line_ranges(&s);
    let ghost ls = lines_spec(s@);
    let mut root: Vec<(String, ConfValue)> = Vec::new();
    let mut section: Option<String> = None;
    let mut i: usize = 0;
    assert(dict_view(root@) =~= Seq::<(Seq<char>, ConfModel)>::empty());
    while i < ranges.len()
        invariant
            s@ == text@,
            ls == lines_spec(s@),
            ranges@.len() == ls.len(),
            forall|k: int| 0 <= k < ranges@.len() ==> (#[trigger] ranges@[k]).0 <= ranges@[k].1 <= s@.len()
                && s@.subrange(ranges@[k].0 as int, ranges@[k].1 as int) == ls[k],
            i <= ranges@.len(),
            ini_lines(ls, i as int, dict_view(root@), match section {
                Some(x) => Some(x@),
                None => None,
            }) == ini_lines(ls, 0, seq![], None),
        decreases ranges@.len() - i,
    {
        let (la, lb) = ranges[i];
        let ghost raw = ls[i as int];
        let (a, b) = trim_range(s.as_slice(), la, lb);
        let ghost line = s@.subrange(a as int, b as int);
        assert(line == trim_spec(raw));
        if a == b || s[a] == '#' || s[a] == ';' {
            i = i + 1;
            continue;
        }
        assert(line[0] == s@[a as int] && line.last() == s@[b - 1]);
        if s[a] == '[' && s[b - 1] == ']' {
            assert(line.subrange(1, line.len() - 1) =~= s@.subrange(a + 1, b - 1));
            let (na, nb) = trim_range(s.as_slice(), a + 1, b - 1);
            let name = string_of(s.as_slice(), na, nb);
            let j = find_key(&root, name.as_str());
            proof {
                lemma_key_index(dict_view(root@), name@, 0);
            }
            if j >= root.len() {
                let empty: Vec<(String, ConfValue)> = Vec::new();
                let ev = ConfValue::Dict(empty);
                assert(ev@ == ConfModel::Dict(seq![])) by {
                    assert(cv(ev)->Dict_0 =~= Seq::<(Seq<char>, ConfModel)>::empty());
                }
                let ghost d0 = dict_view(root@);
                root.push((name.clone(), ev));
                assert(dict_view(root@) =~= d0.push((name@, ConfModel::Dict(seq![]))));
            }
            section = Some(name);
            i = i + 1;
            continue;
        }
        let e = find_char(s.as_slice(), a, b, '=');
        let sep = if e < b { e } else { find_char(s.as_slice(), a, b, ':') };
        if sep >= b {
            i = i + 1;
            continue;
        }
        let (ka, kb) = trim_range(s.as_slice(), a, sep);
        assert(line.subrange(0, sep - a) =~= s@.subrange(a as int, sep as int));
        let key = string_of(s.as_slice(), ka, kb);
        let (va, vb) = trim_range(s.as_slice(), sep + 1, b);
        assert(line.subrange(sep - a + 1, line.len() as int) =~= s@.subrange(sep + 1, b as int));
        let (qa, qb) = trim_dq_range(s.as_slice(), va, vb);
        let val = ConfValue::Str(string_of(s.as_slice(), qa, qb));
        match &section {
            Some(sec) => {
                let j = find_key(&root, sec.as_str());
                proof {
                    lemma_key_index(dict_view(root@), sec@, 0);
                }
                if j < root.len() {
                    let is_dict = match &root[j].1 {
                        ConfValue::Dict(_) => true,
                        _ => false,
                    };
                    if is_dict {
                        proof {
                            let d = dict_view(root@);
                            assert(d[j as int].1 == cv(root@[j as int].1));
                            assert(root@[j as int].1 is Dict);
                            assert(dict_get(d, sec@) == Some(d[j as int].1));
                        }
                        let path = vec![sec.clone(), key];
                        assert(strings_view(path@) =~= seq![sec@, key@]);
                        assert(insert_path_spec(dict_view(root@), seq![sec@, key@], val@) == dict_set(dict_view(root@), sec@, ConfModel::Dict(dict_set(dict_get(dict_view(root@), sec@)->Some_0->Dict_0, key@, val@)))) by {
                            assert(seq![sec@, key@].drop_first() =~= seq![key@]);
                            reveal_with_fuel(insert_path_spec, 2);
                        }
                        insert_path(&mut root, path.as_slice(), val);
                    }
                }
            },
            None => {
                let path = vec![key];
                assert(strings_view(path@) =~= seq![key@]);
                insert_path(&mut root, path.as_slice(), val);
            },
        }
        i = i + 1;
    }
    let r = ConfValue::Dict(root);
    assert(cv(r)->Dict_0 =~= dict_view(root@));
    r
}

// ── Reading back what was stored ─────────────────────────────────────────────

/// The value at a key path, following nested tables.
pub open spec fn get_path(d: Seq<(Seq<char>, ConfModel)>, path: Seq<Seq<char>>) -> Option<ConfModel>
    decreases path.len(),
{
    if path.len() == 0 {
        None
    } else if path.len() == 1 {
        dict_get(d, path[0])
    } else {
        match dict_get(d, path[0]) {
            Some(ConfModel::Dict(inner)) => get_path(inner, path.drop_first()),
            _ => None,
        }
    }
}

proof fn lemma_key_index_first(d: Seq<(Seq<char>, ConfModel)>, k: Seq<char>, i: int)
    requires
        0 <= i <= d.len(),
    ensures
        forall|m: int| i <= m < key_index(d, k, i) ==> d[m].0 != k,
    decreases d.len() - i,
{
    if i < d.len() && d[i].0 != k {
        lemma_key_index_first(d, k, i + 1);
    }
}

proof fn lemma_key_index_at(d: Seq<(Seq<char>, ConfModel)>, k: Seq<char>, i: int, j: int)
    requires
        0 <= i <= j <= d.len(),
        forall|m: int| i <= m < j ==> d[m].0 != k,
        j == d.len() || d[j].0 == k,
    ensures
        key_index(d, k, i) == j,
    decreases j - i,
{
    if i < j {
        lemma_key_index_at(d, k, i + 1, j);
    }
}

/// A key just set reads back as the value it was set to.
proof fn lemma_get_after_set(d: Seq<(Seq<char>, ConfModel)>, k: Seq<char>, v: ConfModel)
    ensures
        dict_get(dict_set(d, k, v), k) == Some(v),
{
    let j = key_index(d, k, 0);
    lemma_key_index(d, k, 0);
    lemma_key_index_first(d, k, 0);
    let d2 = dict_set(d, k, v);
    if j < d.len() {
        lemma_key_index_at(d2, k, 0, j);
    } else {
        lemma_key_index_at(d2, k, 0, d.len() as int);
    }
}

/// A value stored at a key path is what reading that path gives back,
/// whatever the table held before.
pub proof fn law_table_read_back(d: Seq<(Seq<char>, ConfModel)>, path: Seq<Seq<char>>, v: ConfModel)
    requires
        path.len() >= 1,
    ensures
        get_path(insert_path_spec(d, path, v), path) == Some(v),
    decreases path.len(),
{
    if path.len() == 1 {
        lemma_get_after_set(d, path[0], v);
    } else {
        let inner = match dict_get(d, path[0]) {
            Some(ConfModel::Dict(x)) => x,
            _ => seq![],
        };
        let nv = ConfModel::Dict(insert_path_spec(inner, path.drop_first(), v));
        lemma_get_after_set(d, path[0], nv);
        law_table_read_back(inner, path.drop_first(), v);
    }
}

} // verus!
