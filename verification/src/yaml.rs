//! भारत.यामल — reading the common YAML configuration shapes: nested
//! mappings by indentation, `- item` sequences, scalars (quoted and bare
//! strings, integers, floats, booleans, null), `#` comments and blank lines.

use vstd::prelude::*;
use crate::text::{first_occ_from, lemma_first_occ_from, str_chars, chars_to_string, chars_eq, find_chars, push_chars, is_whitespace};
use crate::tomlparse::{
    ConfValue, ConfModel, cv, dict_view, list_view, dict_set, trim_spec, trim_start_at, trim_range, trim_chars, lemma_trim,
    find_key, lemma_key_index, lines_spec, line_ranges, key_piece, key_piece_of, i64_literal, parse_i64, first_index,
    find_char, sub_chars, string_of,
};
use crate::xmlparse::{replace_spec, replace_pass};

verus! {

/// The number of bytes that UTF-8 takes for `c`.
pub open spec fn char_width(c: char) -> int {
    if (c as u32) < 0x80 {
        1
    } else if (c as u32) < 0x800 {
        2
    } else if (c as u32) < 0x10000 {
        3
    } else {
        4
    }
}

/// The length in bytes of the UTF-8 encoding of `s`.
pub open spec fn utf8_width(s: Seq<char>) -> int
    decreases s.len(),
{
    if s.len() == 0 {
        0
    } else {
        utf8_width(s.drop_last()) + char_width(s.last())
    }
}

/// A line of the document: its indentation (in bytes) and its trimmed text.
pub type YLine = (int, Seq<char>);

/// A line without its comment: cut at the first ` #`, unless a `"` comes
/// before it.
pub open spec fn uncomment(raw: Seq<char>) -> Seq<char> {
    let p = first_occ_from(raw, " #"@, 0);
    if p < raw.len() && first_index(raw.subrange(0, p), '"', 0) >= p {
        raw.subrange(0, p)
    } else {
        raw
    }
}

/// The document's lines from `i` on: comments cut, blank lines and `---`
/// dropped.
pub open spec fn ylines_from(ls: Seq<Seq<char>>, i: int) -> Seq<YLine>
    decreases ls.len() - i,
{
    if i < 0 || i >= ls.len() {
        seq![]
    } else {
        let nc = uncomment(ls[i]);
        let t = trim_spec(nc);
        if t.len() == 0 || t == "---"@ {
            ylines_from(ls, i + 1)
        } else {
            seq![(utf8_width(nc.subrange(0, trim_start_at(nc, 0))), t)] + ylines_from(ls, i + 1)
        }
    }
}

/// A scalar: null (empty, `~`, `null`), a boolean, a quoted string (`\"`
/// and `\n` unescaped in double quotes), an integer, else a float or bare
/// string.
pub open spec fn scalar_spec(s: Seq<char>) -> ConfModel {
    let t = trim_spec(s);
    if t.len() == 0 || t == "~"@ || t == "null"@ {
        ConfModel::Nil
    } else if t == "true"@ {
        ConfModel::Bool(true)
    } else if t == "false"@ {
        ConfModel::Bool(false)
    } else if t.len() >= 2 && t[0] == '"' && t.last() == '"' {
        ConfModel::Str(replace_spec(replace_spec(t.subrange(1, t.len() - 1), "\\\""@, "\""@), "\\n"@, "\n"@))
    } else if t.len() >= 2 && t[0] == '\'' && t.last() == '\'' {
        ConfModel::Str(t.subrange(1, t.len() - 1))
    } else {
        match i64_literal(t) {
            Some(v) => ConfModel::Int(v),
            None => ConfModel::FloatOrStr(t, t),
        }
    }
}

/// How reading fails: with a message, or by cutting a line's text inside a
/// character (where reading cannot go on).
pub enum YamlFault {
    Msg(Seq<char>),
    Slice,
}

/// The size of lines `a..b`: each line's text and one more.
pub open spec fn weight(ls: Seq<YLine>, a: int, b: int) -> int
    decreases b - a,
{
    if a < 0 || a >= b || b > ls.len() {
        0
    } else {
        ls[a].1.len() + 1 + weight(ls, a + 1, b)
    }
}

/// The first line from `j` on (before `end`) not indented deeper than `base`.
pub open spec fn next_at_base(ls: Seq<YLine>, j: int, end: int, base: int) -> int
    decreases end - j,
{
    if 0 <= j < end && j < ls.len() && ls[j].0 > base {
        next_at_base(ls, j + 1, end, base)
    } else {
        j
    }
}

/// Lines `a..b` re-indented as the continuation of a sequence item.
pub open spec fn shifted(ls: Seq<YLine>, a: int, b: int, base: int) -> Seq<YLine>
    decreases b - a,
{
    if a < 0 || a >= b || b > ls.len() {
        seq![]
    } else {
        seq![(ls[a].0 - base + 2, ls[a].1)] + shifted(ls, a + 1, b, base)
    }
}

pub open spec fn is_seq_line(t: Seq<char>) -> bool {
    (t.len() >= 2 && t[0] == '-' && t[1] == ' ') || t == "-"@
}

pub proof fn lemma_weight(ls: Seq<YLine>, a: int, b: int, c: int)
    requires
        0 <= a <= b <= c <= ls.len(),
    ensures
        weight(ls, a, c) == weight(ls, a, b) + weight(ls, b, c),
        weight(ls, b, c) >= 0,
    decreases b - a,
{
    if a < b {
        lemma_weight(ls, a + 1, b, c);
    } else {
        lemma_weight_nonneg(ls, b, c);
    }
}

pub proof fn lemma_weight_nonneg(ls: Seq<YLine>, a: int, b: int)
    ensures
        weight(ls, a, b) >= 0,
    decreases b - a,
{
    if 0 <= a < b <= ls.len() {
        lemma_weight_nonneg(ls, a + 1, b);
    }
}

pub proof fn lemma_shifted(ls: Seq<YLine>, a: int, b: int, base: int)
    requires
        0 <= a <= b <= ls.len(),
    ensures
        shifted(ls, a, b, base).len() == b - a,
        weight(shifted(ls, a, b, base), 0, b - a) == weight(ls, a, b),
        forall|k: int| 0 <= k < b - a ==> #[trigger] shifted(ls, a, b, base)[k] == (ls[a + k].0 - base + 2, ls[a + k].1),
    decreases b - a,
{
    if a < b {
        lemma_shifted(ls, a + 1, b, base);
        let rest = shifted(ls, a + 1, b, base);
        let s = shifted(ls, a, b, base);
        assert(s == seq![(ls[a].0 - base + 2, ls[a].1)] + rest);
        lemma_weight_prefix(s, rest);
        assert forall|k: int| 0 <= k < b - a implies #[trigger] s[k] == (ls[a + k].0 - base + 2, ls[a + k].1) by {
            if k > 0 {
                assert(s[k] == rest[k - 1]);
            }
        }
    }
}

pub proof fn lemma_weight_prefix(s: Seq<YLine>, rest: Seq<YLine>)
    requires
        s.len() == rest.len() + 1,
        forall|k: int| 0 <= k < rest.len() ==> s[k + 1] == rest[k],
    ensures
        weight(s, 0, s.len() as int) == s[0].1.len() + 1 + weight(rest, 0, rest.len() as int),
{
    lemma_weight_shift(s, rest, 0);
}

pub proof fn lemma_weight_shift(s: Seq<YLine>, rest: Seq<YLine>, k: int)
    requires
        s.len() == rest.len() + 1,
        forall|m: int| 0 <= m < rest.len() ==> s[m + 1] == rest[m],
        0 <= k <= rest.len(),
    ensures
        weight(s, k + 1, s.len() as int) == weight(rest, k, rest.len() as int),
    decreases rest.len() - k,
{
    if k < rest.len() {
        lemma_weight_shift(s, rest, k + 1);
    }
}

pub proof fn lemma_next_at_base(ls: Seq<YLine>, j: int, end: int, base: int)
    requires
        0 <= j <= end <= ls.len(),
    ensures
        j <= next_at_base(ls, j, end, base) <= end,
        forall|m: int| j <= m < next_at_base(ls, j, end, base) ==> ls[m].0 > base,
    decreases end - j,
{
    if j < end && ls[j].0 > base {
        lemma_next_at_base(ls, j + 1, end, base);
    }
}

/// The block of lines `start..end`, whose first line sets the indentation:
/// a sequence when it starts with `- `, else a mapping; nothing when empty.
pub open spec fn block_spec(ls: Seq<YLine>, start: int, end: int) -> Result<ConfModel, YamlFault>
    decreases weight(ls, start, end), 2int,
{
    if start < 0 || start >= end || end > ls.len() {
        Ok(ConfModel::Nil)
    } else if is_seq_line(ls[start].1) {
        match seq_spec(ls, start, end, ls[start].0, seq![]) {
            Err(e) => Err(e),
            Ok(items) => Ok(ConfModel::List(items)),
        }
    } else {
        match map_spec(ls, start, end, ls[start].0, seq![]) {
            Err(e) => Err(e),
            Ok(d) => Ok(ConfModel::Dict(d)),
        }
    }
}

/// The items of a sequence from line `i` on: each line at `base` is an
/// item (what follows `-`), with the deeper lines after it; an empty item is
/// the block below it, an item with `key:` a mapping, else a scalar.
pub open spec fn seq_spec(ls: Seq<YLine>, i: int, end: int, base: int, acc: Seq<ConfModel>) -> Result<Seq<ConfModel>, YamlFault>
    decreases weight(ls, i, end), 1int,
{
    if i < 0 || i >= end || end > ls.len() {
        Ok(acc)
    } else if ls[i].0 != base {
        proof {
            lemma_weight_nonneg(ls, i + 1, end);
        }
        seq_spec(ls, i + 1, end, base, acc)
    } else {
        let t = ls[i].1;
        if t.len() == 0 || t[0] >= '\u{80}' {
            Err(YamlFault::Slice)
        } else {
            let item = t.subrange(trim_start_at(t, 1), t.len() as int);
            let j = next_at_base(ls, i + 1, end, base);
            proof {
                lemma_next_at_base(ls, i + 1, end, base);
                lemma_weight(ls, i + 1, j, end);
                lemma_weight_nonneg(ls, i + 1, j);
                lemma_trim(t, 1, 0, t.len() as int);
                lemma_shifted(ls, i + 1, j, base);
            }
            let r = if item.len() == 0 {
                block_spec(ls, i + 1, j)
            } else if first_occ_from(item, ": "@, 0) < item.len() || item.last() == ':' {
                let sub = seq![(0int, item)] + shifted(ls, i + 1, j, base);
                proof {
                    lemma_weight_prefix(sub, shifted(ls, i + 1, j, base));
                }
                block_spec(sub, 0, sub.len() as int)
            } else {
                Ok(scalar_spec(item))
            };
            match r {
                Err(e) => Err(e),
                Ok(v) => seq_spec(ls, j, end, base, acc.push(v)),
            }
        }
    }
}

pub open spec fn msg_no_colon(line: Seq<char>) -> Seq<char> {
    "यामल: ':' नहीं मिला — '"@ + line + "'"@
}

/// The entries of a mapping from line `i` on: each line at `base` is
/// `key: value`, an empty value being the block below it.
pub open spec fn map_spec(ls: Seq<YLine>, i: int, end: int, base: int, acc: Seq<(Seq<char>, ConfModel)>) -> Result<Seq<(Seq<char>, ConfModel)>, YamlFault>
    decreases weight(ls, i, end), 1int,
{
    if i < 0 || i >= end || end > ls.len() {
        Ok(acc)
    } else if ls[i].0 != base {
        proof {
            lemma_weight_nonneg(ls, i + 1, end);
        }
        map_spec(ls, i + 1, end, base, acc)
    } else {
        let line = ls[i].1;
        let colon = first_index(line, ':', 0);
        if colon >= line.len() {
            Err(YamlFault::Msg(msg_no_colon(line)))
        } else {
            let key = key_piece(line.subrange(0, colon));
            let rest = trim_spec(line.subrange(colon + 1, line.len() as int));
            let j = next_at_base(ls, i + 1, end, base);
            proof {
                lemma_next_at_base(ls, i + 1, end, base);
                lemma_weight(ls, i + 1, j, end);
                lemma_weight_nonneg(ls, i + 1, j);
            }
            let r = if rest.len() == 0 {
                block_spec(ls, i + 1, j)
            } else {
                Ok(scalar_spec(rest))
            };
            match r {
                Err(e) => Err(e),
                Ok(v) => map_spec(ls, j, end, base, dict_set(acc, key, v)),
            }
        }
    }
}

/// A document: its block, or an empty mapping when it has no lines.
pub open spec fn yaml_spec(text: Seq<char>) -> Result<ConfModel, YamlFault> {
    let ls = ylines_from(lines_spec(text), 0);
    if ls.len() == 0 {
        Ok(ConfModel::Dict(seq![]))
    } else {
        block_spec(ls, 0, ls.len() as int)
    }
}


// ── Lines ────────────────────────────────────────────────────────────────────

/// The lines as held while reading: indentation in bytes, then the text.
pub open spec fn yview(v: Seq<(usize, Vec<char>)>) -> Seq<YLine> {
    Seq::new(v.len(), |k: int| (v[k].0 as int, v[k].1@))
}

/// Indentations stay small next to the lines' size, so that re-indenting a
/// sequence item's lines cannot overflow.
pub open spec fn indents_fit(ls: Seq<YLine>, a: int, b: int) -> bool {
    forall|k: int| a <= k < b ==> 0 <= #[trigger] ls[k].0 && ls[k].0 + 2 * weight(ls, a, b) <= 7 * (usize::MAX / 8)
}

pub proof fn lemma_weight_same(s: Seq<YLine>, t: Seq<YLine>, a: int, b: int)
    requires
        0 <= a <= b <= s.len(),
        b <= t.len(),
        forall|k: int| a <= k < b ==> s[k] == t[k],
    ensures
        weight(s, a, b) == weight(t, a, b),
    decreases b - a,
{
    if a < b {
        lemma_weight_same(s, t, a + 1, b);
    }
}

pub proof fn lemma_weight_push(s: Seq<YLine>, x: YLine)
    ensures
        weight(s.push(x), 0, s.len() + 1int) == weight(s, 0, s.len() as int) + x.1.len() + 1,
{
    let t = s.push(x);
    lemma_weight(t, 0, s.len() as int, s.len() + 1int);
    lemma_weight_same(s, t, 0, s.len() as int);
    assert(weight(t, s.len() + 1int, s.len() + 1int) == 0);
}

/// Bytes of UTF-8 that `s[a..b]` takes.
fn width_of(s: &[char], a: usize, b: usize) -> (r: usize)
    requires
        a <= b <= s@.len(),
        s@.len() < usize::MAX / 8,
    ensures
        r == utf8_width(s@.subrange(a as int, b as int)),
        r <= 4 * (b - a),
{
    let mut w: usize = 0;
    let mut k = a;
    while k < b
        invariant
            a <= k <= b <= s@.len(),
            s@.len() < usize::MAX / 8,
            w == utf8_width(s@.subrange(a as int, k as int)),
            w <= 4 * (k - a),
        decreases b - k,
    {
        let u = s[k] as u32;
        let cw: usize = if u < 0x80 {
            1
        } else if u < 0x800 {
            2
        } else if u < 0x10000 {
            3
        } else {
            4
        };
        assert(s@.subrange(a as int, k + 1).drop_last() =~= s@.subrange(a as int, k as int));
        assert(s@.subrange(a as int, k + 1).last() == s@[k as int]);
        w = w + cw;
        k = k + 1;
    }
    w
}

/// Whether `s[a..b]` is the text `lit`.
fn lit_eq(s: &[char], a: usize, b: usize, lit: &str) -> (r: bool)
    requires
        a <= b <= s@.len(),
    ensures
        r == (s@.subrange(a as int, b as int) == lit@),
{
    let v = sub_chars(s, a, b);
    let l = str_chars(lit);
    chars_eq(v.as_slice(), l.as_slice())
}

/// The document's lines (see `ylines_from`).
fn yaml_lines(text: &str) -> (r: Vec<(usize, Vec<char>)>)
    requires
        text@.len() < usize::MAX / 8,
    ensures
        yview(r@) == ylines_from(lines_spec(text@), 0),
        indents_fit(yview(r@), 0, r@.len() as int),
{
    let s = str_chars(text);
    let ranges = line_ranges(&s);
    let ghost ls = lines_spec(s@);
    let n = s.len();
    let hash = str_chars(" #");
    proof {
        reveal_strlit(" #");
    }
    let mut out: Vec<(usize, Vec<char>)> = Vec::new();
    let mut k: usize = 0;
    assert(yview(out@) =~= Seq::<YLine>::empty());
    while k < ranges.len()
        invariant
            s@ == text@,
            n == s@.len(),
            n < usize::MAX / 8,
            hash@ == " #"@,
            " #"@.len() == 2,
            ls == lines_spec(s@),
            ranges@.len() == ls.len(),
            forall|m: int| 0 <= m < ranges@.len() ==> (#[trigger] ranges@[m]).0 <= ranges@[m].1 <= s@.len()
                && s@.subrange(ranges@[m].0 as int, ranges@[m].1 as int) == ls[m],
            forall|j: int, m: int| 0 <= j < m < ranges@.len() ==> (#[trigger] ranges@[j]).1 < (#[trigger] ranges@[m]).0,
            k <= ranges@.len(),
            yview(out@) + ylines_from(ls, k as int) == ylines_from(ls, 0),
            weight(yview(out@), 0, out@.len() as int) <= (if k < ranges@.len() { ranges@[k as int].0 as int } else { n + 1 }),
            forall|m: int| 0 <= m < out@.len() ==> (#[trigger] out@[m]).0 <= 4 * n,
        decreases ranges@.len() - k,
    {
        let (la, lb) = ranges[k];
        let raw = sub_chars(s.as_slice(), la, lb);
        assert(raw@ == ls[k as int]);
        proof {
            lemma_first_occ_from(raw@, " #"@, 0);
        }
        let cut = match find_chars(&raw, &hash) {
            Some(p) => {
                let q = find_char(raw.as_slice(), 0, p, '"');
                if q >= p {
                    p
                } else {
                    raw.len()
                }
            },
            None => raw.len(),
        };
        let ghost nc = raw@.subrange(0, cut as int);
        assert(nc == uncomment(ls[k as int])) by {
            if cut < raw@.len() {
                assert(raw@.subrange(0, cut as int) == nc);
            } else {
                assert(nc =~= raw@);
            }
        }
        let (a, b) = trim_chars(raw.as_slice(), 0, cut);
        assert(raw@.subrange(a as int, b as int) =~= trim_spec(nc)) by {
            assert(raw@.subrange(0, cut as int) == nc);
            assert(nc.subrange(a as int, b as int) =~= raw@.subrange(a as int, b as int));
        }
        let ghost old_out = out@;
        let ghost w0 = weight(yview(out@), 0, out@.len() as int);
        proof {
            if k + 1 < ranges@.len() {
                assert(ranges@[k as int].1 < ranges@[k + 1].0);
            }
        }
        if a == b || lit_eq(raw.as_slice(), a, b, "---") {
            assert(ylines_from(ls, k as int) == ylines_from(ls, k + 1));
            k = k + 1;
            continue;
        }
        let ind = width_of(raw.as_slice(), 0, a);
        assert(raw@.subrange(0, a as int) =~= nc.subrange(0, a as int));
        let t = sub_chars(raw.as_slice(), a, b);
        out.push((ind, t));
        proof {
            let x: YLine = (ind as int, t@);
            assert(yview(out@) =~= yview(old_out).push(x));
            assert(ylines_from(ls, k as int) == seq![x] + ylines_from(ls, k + 1));
            assert(yview(old_out) + ylines_from(ls, k as int) =~= yview(out@) + ylines_from(ls, k + 1));
            lemma_weight_push(yview(old_out), x);
            assert(yview(old_out).len() == old_out.len());
        }
        k = k + 1;
    }
    proof {
        assert(ylines_from(ls, k as int) =~= Seq::<YLine>::empty());
        assert(yview(out@) + ylines_from(ls, k as int) =~= yview(out@));
        let v = yview(out@);
        assert forall|m: int| 0 <= m < out@.len() implies 0 <= #[trigger] v[m].0 && v[m].0 + 2 * weight(v, 0, out@.len() as int) <= 7 * (usize::MAX / 8) by {
            assert(v[m].0 == out@[m].0);
        }
    }
    out
}

// ── Scalars ──────────────────────────────────────────────────────────────────

/// A scalar (see `scalar_spec`) read from `s[a0..b0]`.
fn scalar_value(s: &[char], a0: usize, b0: usize) -> (r: ConfValue)
    requires
        a0 <= b0 <= s@.len(),
    ensures
        r@ == scalar_spec(s@.subrange(a0 as int, b0 as int)),
{
    let (a, b) = trim_range(s, a0, b0);
    let ghost t = s@.subrange(a as int, b as int);
    if a == b || lit_eq(s, a, b, "~") || lit_eq(s, a, b, "null") {
        return ConfValue::Nil;
    }
    if lit_eq(s, a, b, "true") {
        return ConfValue::Bool(true);
    }
    if lit_eq(s, a, b, "false") {
        return ConfValue::Bool(false);
    }
    assert(t[0] == s@[a as int] && t.last() == s@[b - 1]);
    if b - a >= 2 && s[a] == '"' && s[b - 1] == '"' {
        let inner = sub_chars(s, a + 1, b - 1);
        assert(inner@ =~= t.subrange(1, t.len() - 1));
        let x = replace_pass(&inner, "\\\"", "\"");
        let y = replace_pass(&x, "\\n", "\n");
        return ConfValue::Str(chars_to_string(y.as_slice()));
    }
    if b - a >= 2 && s[a] == '\'' && s[b - 1] == '\'' {
        assert(s@.subrange(a + 1, b - 1) =~= t.subrange(1, t.len() - 1));
        return ConfValue::Str(string_of(s, a + 1, b - 1));
    }
    let ts = string_of(s, a, b);
    match parse_i64(ts.as_str()) {
        Some(v) => ConfValue::Int(v),
        None => {
            let text = string_of(s, a, b);
            ConfValue::FloatOrStr(ts, text)
        },
    }
}

// ── Blocks ───────────────────────────────────────────────────────────────────

/// How reading stopped early.
enum YErr {
    Msg(String),
    Slice,
}

/// `r` is what the model `m` says reading gives.
spec fn agrees<T>(r: Result<T, YErr>, m: Result<ConfModel, YamlFault>, f: spec_fn(T) -> ConfModel) -> bool {
    match m {
        Ok(x) => r matches Ok(v) && f(v) == x,
        Err(YamlFault::Msg(x)) => r matches Err(YErr::Msg(e)) && e@ == x,
        Err(YamlFault::Slice) => r matches Err(YErr::Slice),
    }
}

/// Lines `start..end` split into `start..i+1`, `i+1..j` and `j..end`.
proof fn lemma_item_split(ls: Seq<YLine>, start: int, i: int, j: int, end: int)
    requires
        0 <= start <= i < j <= end <= ls.len(),
    ensures
        weight(ls, i, end) == ls[i].1.len() + 1 + weight(ls, i + 1, j) + weight(ls, j, end),
        weight(ls, i, end) <= weight(ls, start, end),
        weight(ls, i + 1, j) >= 0,
        weight(ls, j, end) >= 0,
{
    lemma_weight(ls, start, i, end);
    lemma_weight(ls, i + 1, j, end);
    lemma_weight_nonneg(ls, start, i);
    lemma_weight_nonneg(ls, i + 1, j);
}

/// Indentations fit on a part of a block too.
proof fn lemma_fit_part(ls: Seq<YLine>, start: int, a: int, b: int, end: int)
    requires
        0 <= start <= a <= b <= end <= ls.len(),
        indents_fit(ls, start, end),
    ensures
        indents_fit(ls, a, b),
        weight(ls, a, b) <= weight(ls, start, end),
{
    lemma_weight(ls, start, a, end);
    lemma_weight(ls, a, b, end);
    lemma_weight_nonneg(ls, start, a);
    lemma_weight_nonneg(ls, b, end);
    assert forall|k: int| a <= k < b implies 0 <= #[trigger] ls[k].0 && ls[k].0 + 2 * weight(ls, a, b) <= 7 * (usize::MAX / 8) by {
        assert(ls[k].0 + 2 * weight(ls, start, end) <= 7 * (usize::MAX / 8));
    }
}

/// The end of the item or entry at line `i`: the next line not deeper than `base`.
fn item_end(lines: &Vec<(usize, Vec<char>)>, i: usize, end: usize, base: usize) -> (j: usize)
    requires
        i < end <= lines@.len(),
    ensures
        j == next_at_base(yview(lines@), i + 1, end as int, base as int),
        i + 1 <= j <= end,
        forall|m: int| i + 1 <= m < j ==> yview(lines@)[m].0 > base,
{
    let ghost ls = yview(lines@);
    proof {
        lemma_next_at_base(ls, i + 1, end as int, base as int);
    }
    let mut j = i + 1;
    while j < end && lines[j].0 > base
        invariant
            i + 1 <= j <= end <= lines@.len(),
            ls == yview(lines@),
            next_at_base(ls, j as int, end as int, base as int) == next_at_base(ls, i + 1, end as int, base as int),
        decreases end - j,
    {
        assert(ls[j as int].0 == lines@[j as int].0);
        j = j + 1;
    }
    if j < end {
        assert(ls[j as int].0 == lines@[j as int].0);
    }
    j
}

/// A block (see `block_spec`).
fn parse_block(lines: &Vec<(usize, Vec<char>)>, start: usize, end: usize) -> (r: Result<ConfValue, YErr>)
    requires
        start <= end <= lines@.len(),
        indents_fit(yview(lines@), start as int, end as int),
    ensures
        agrees(r, block_spec(yview(lines@), start as int, end as int), |v: ConfValue| v@),
    decreases weight(yview(lines@), start as int, end as int), 2int,
{
    let ghost ls = yview(lines@);
    if start >= end {
        return Ok(ConfValue::Nil);
    }
    let base = lines[start].0;
    let t0 = &lines[start].1;
    assert(ls[start as int] == (base as int, t0@));
    let is_seq = (t0.len() >= 2 && t0[0] == '-' && t0[1] == ' ') || (t0.len() == 1 && t0[0] == '-');
    assert(is_seq == is_seq_line(t0@)) by {
        if t0@.len() == 1 && t0@[0] == '-' {
            assert(t0@ =~= "-"@) by {
                reveal_strlit("-");
            }
        }
        if t0@ == "-"@ {
            reveal_strlit("-");
        }
    }
    if is_seq {
        match parse_seq(lines, start, end, base) {
            Err(e) => Err(e),
            Ok(items) => {
                let v = ConfValue::List(items);
                assert(cv(v)->List_0 =~= list_view(items@));
                Ok(v)
            },
        }
    } else {
        match parse_map(lines, start, end, base) {
            Err(e) => Err(e),
            Ok(d) => {
                let v = ConfValue::Dict(d);
                assert(cv(v)->Dict_0 =~= dict_view(d@));
                Ok(v)
            },
        }
    }
}

/// The items of a sequence (see `seq_spec`).
fn parse_seq(lines: &Vec<(usize, Vec<char>)>, start: usize, end: usize, base: usize) -> (r: Result<Vec<ConfValue>, YErr>)
    requires
        start < end <= lines@.len(),
        indents_fit(yview(lines@), start as int, end as int),
    ensures
        agrees(r, match seq_spec(yview(lines@), start as int, end as int, base as int, seq![]) {
            Ok(items) => Ok(ConfModel::List(items)),
            Err(e) => Err(e),
        }, |v: Vec<ConfValue>| ConfModel::List(list_view(v@))),
    decreases weight(yview(lines@), start as int, end as int), 1int,
{
    let ghost ls = yview(lines@);
    let ghost total = seq_spec(ls, start as int, end as int, base as int, seq![]);
    let colon_space = str_chars(": ");
    proof {
        reveal_strlit(": ");
    }
    let mut list: Vec<ConfValue> = Vec::new();
    let mut i = start;
    assert(list_view(list@) =~= Seq::<ConfModel>::empty());
    while i < end
        invariant
            start <= i <= end <= lines@.len(),
            ls == yview(lines@),
            colon_space@ == ": "@,
            ": "@.len() == 2,
            indents_fit(ls, start as int, end as int),
            seq_spec(ls, i as int, end as int, base as int, list_view(list@)) == total,
            total == seq_spec(ls, start as int, end as int, base as int, seq![]),
            weight(ls, i as int, end as int) <= weight(ls, start as int, end as int),
        decreases end - i,
    {
        assert(ls[i as int] == (lines@[i as int].0 as int, lines@[i as int].1@));
        proof {
            lemma_weight_nonneg(ls, i + 1, end as int);
        }
        if lines[i].0 != base {
            i = i + 1;
            continue;
        }
        let t = &lines[i].1;
        if t.len() == 0 || t[0] >= '\u{80}' {
            return Err(YErr::Slice);
        }
        let mut a: usize = 1;
        while a < t.len() && is_whitespace(t[a])
            invariant
                1 <= a <= t@.len(),
                trim_start_at(t@, a as int) == trim_start_at(t@, 1),
            decreases t@.len() - a,
        {
            a = a + 1;
        }
        proof {
            lemma_trim(t@, 1, 0, t@.len() as int);
        }
        let ghost item = t@.subrange(a as int, t@.len() as int);
        let j = item_end(lines, i, end, base);
        proof {
            lemma_item_split(ls, start as int, i as int, j as int, end as int);
            lemma_fit_part(ls, start as int, i + 1, j as int, end as int);
        }
        let r = if a == t.len() {
            parse_block(lines, i + 1, j)
        } else {
            let iv = sub_chars(t.as_slice(), a, t.len());
            assert(iv@ == item);
            proof {
                lemma_first_occ_from(item, ": "@, 0);
            }
            let has = match find_chars(&iv, &colon_space) {
                Some(_) => true,
                None => iv[iv.len() - 1] == ':',
            };
            if has {
                let mut sub: Vec<(usize, Vec<char>)> = Vec::new();
                sub.push((0, iv));
                let mut k = i + 1;
                while k < j
                    invariant
                        start <= i,
                        i + 1 <= k <= j <= end <= lines@.len(),
                        ls == yview(lines@),
                        indents_fit(ls, start as int, end as int),
                        forall|m: int| i + 1 <= m < j ==> ls[m].0 > base,
                        sub@.len() == k - i,
                        yview(sub@)[0] == (0int, item),
                        forall|m: int| 1 <= m < sub@.len() ==> #[trigger] yview(sub@)[m] == (ls[i + m].0 - base + 2, ls[i + m].1),
                        weight(ls, start as int, end as int) >= 1,
                    decreases j - k,
                {
                    assert(ls[k as int] == (lines@[k as int].0 as int, lines@[k as int].1@));
                    assert(ls[k as int].0 + 2 * weight(ls, start as int, end as int) <= 7 * (usize::MAX / 8));
                    let ind = lines[k].0 - base + 2;
                    let text = sub_chars(lines[k].1.as_slice(), 0, lines[k].1.len());
                    assert(text@ =~= ls[k as int].1);
                    let ghost before = sub@;
                    sub.push((ind, text));
                    proof {
                        assert forall|m: int| 1 <= m < sub@.len() implies #[trigger] yview(sub@)[m] == (ls[i + m].0 - base + 2, ls[i + m].1) by {
                            if m < before.len() {
                                assert(yview(sub@)[m] == yview(before)[m]);
                            }
                        }
                    }
                    k = k + 1;
                }
                let ghost sh = shifted(ls, i + 1, j as int, base as int);
                proof {
                    lemma_shifted(ls, i + 1, j as int, base as int);
                    assert(yview(sub@) =~= seq![(0int, item)] + sh) by {
                        assert forall|m: int| 0 <= m < sub@.len() implies #[trigger] yview(sub@)[m] == (seq![(0int, item)] + sh)[m] by {
                            if m > 0 {
                                assert(sh[m - 1] == (ls[i + 1 + (m - 1)].0 - base + 2, ls[i + 1 + (m - 1)].1));
                            }
                        }
                    }
                    let sv = yview(sub@);
                    lemma_weight_prefix(sv, sh);
                    assert forall|m: int| 0 <= m < sv.len() implies 0 <= #[trigger] sv[m].0 && sv[m].0 + 2 * weight(sv, 0, sv.len() as int) <= 7 * (usize::MAX / 8) by {
                        if m > 0 {
                            assert(sv[m] == (ls[i + m].0 - base + 2, ls[i + m].1));
                            assert(ls[i + m].0 + 2 * weight(ls, start as int, end as int) <= 7 * (usize::MAX / 8));
                        }
                    }
                }
                parse_block(&sub, 0, sub.len())
            } else {
                Ok(scalar_value(t.as_slice(), a, t.len()))
            }
        };
        match r {
            Err(e) => {
                return Err(e);
            },
            Ok(v) => {
                let ghost before = list@;
                list.push(v);
                assert(list_view(list@) =~= list_view(before).push(v@));
            },
        }
        i = j;
    }
    Ok(list)
}

/// The message for a mapping line without `:`.
fn no_colon_message(line: &[char]) -> (r: String)
    ensures
        r@ == msg_no_colon(line@),
{
    let mut m = "यामल: ':' नहीं मिला — '".to_owned();
    push_chars(&mut m, line, 0, line.len());
    crate::text::push_str(&mut m, "'");
    assert(line@.subrange(0, line@.len() as int) =~= line@);
    m
}

/// The entries of a mapping (see `map_spec`).
fn parse_map(lines: &Vec<(usize, Vec<char>)>, start: usize, end: usize, base: usize) -> (r: Result<Vec<(String, ConfValue)>, YErr>)
    requires
        start < end <= lines@.len(),
        indents_fit(yview(lines@), start as int, end as int),
    ensures
        agrees(r, match map_spec(yview(lines@), start as int, end as int, base as int, seq![]) {
            Ok(d) => Ok(ConfModel::Dict(d)),
            Err(e) => Err(e),
        }, |v: Vec<(String, ConfValue)>| ConfModel::Dict(dict_view(v@))),
    decreases weight(yview(lines@), start as int, end as int), 1int,
{
    let ghost ls = yview(lines@);
    let ghost total = map_spec(ls, start as int, end as int, base as int, seq![]);
    let mut map: Vec<(String, ConfValue)> = Vec::new();
    let mut i = start;
    assert(dict_view(map@) =~= Seq::<(Seq<char>, ConfModel)>::empty());
    while i < end
        invariant
            start <= i <= end <= lines@.len(),
            ls == yview(lines@),
            indents_fit(ls, start as int, end as int),
            map_spec(ls, i as int, end as int, base as int, dict_view(map@)) == total,
            total == map_spec(ls, start as int, end as int, base as int, seq![]),
            weight(ls, i as int, end as int) <= weight(ls, start as int, end as int),
        decreases end - i,
    {
        assert(ls[i as int] == (lines@[i as int].0 as int, lines@[i as int].1@));
        proof {
            lemma_weight_nonneg(ls, i + 1, end as int);
        }
        if lines[i].0 != base {
            i = i + 1;
            continue;
        }
        let t = &lines[i].1;
        let colon = find_char(t.as_slice(), 0, t.len(), ':');
        assert(t@.subrange(0, t@.len() as int) =~= t@);
        if colon >= t.len() {
            return Err(YErr::Msg(no_colon_message(t.as_slice())));
        }
        let key = key_piece_of(t.as_slice(), 0, colon);
        let (ra, rb) = trim_range(t.as_slice(), colon + 1, t.len());
        let j = item_end(lines, i, end, base);
        proof {
            lemma_item_split(ls, start as int, i as int, j as int, end as int);
            lemma_fit_part(ls, start as int, i + 1, j as int, end as int);
        }
        let r = if ra == rb {
            parse_block(lines, i + 1, j)
        } else {
            Ok(scalar_value(t.as_slice(), ra, rb))
        };
        match r {
            Err(e) => {
                return Err(e);
            },
            Ok(v) => {
                let ghost d0 = dict_view(map@);
                let jk = find_key(&map, key.as_str());
                proof {
                    lemma_key_index(d0, key@, 0);
                }
                if jk < map.len() {
                    map.set(jk, (key, v));
                    assert(dict_view(map@) =~= d0.update(jk as int, (key@, v@)));
                } else {
                    map.push((key, v));
                    assert(dict_view(map@) =~= d0.push((key@, v@)));
                }
            },
        }
        i = j;
    }
    Ok(map)
}

// ── Reading ──────────────────────────────────────────────────────────────────

fn yaml_core(text: &str) -> (r: Result<ConfValue, YErr>)
    requires
        text@.len() < usize::MAX / 8,
    ensures
        agrees(r, yaml_spec(text@), |v: ConfValue| v@),
{
    let lines = yaml_lines(text);
    if lines.len() == 0 {
        let d: Vec<(String, ConfValue)> = Vec::new();
        let v = ConfValue::Dict(d);
        assert(cv(v)->Dict_0 =~= Seq::<(Seq<char>, ConfModel)>::empty());
        return Ok(v);
    }
    parse_block(&lines, 0, lines.len())
}

/// यामल_पढ़ो: reads a YAML text (see `yaml_spec`): a mapping gives `Dict`,
/// a sequence `List`, a scalar its value.
pub fn yaml_read(text: &str) -> (r: Result<ConfValue, String>)
    requires
        text@.len() < usize::MAX / 8,
        !(yaml_spec(text@) matches Err(YamlFault::Slice)),
    ensures
        match yaml_spec(text@) {
            Ok(m) => r matches Ok(v) && v@ == m,
            Err(YamlFault::Msg(e)) => r matches Err(x) && x@ == e,
            Err(YamlFault::Slice) => false,
        },
{
    match yaml_core(text) {
        Ok(v) => Ok(v),
        Err(YErr::Msg(m)) => Err(m),
        Err(YErr::Slice) => Err(String::new()),
    }
}

/// Whether reading the text keeps every sequence item's first character
/// whole (an item line that starts with a multi-byte character cannot be
/// cut after its first byte).
pub fn yaml_in_range(text: &str) -> (b: bool)
    requires
        text@.len() < usize::MAX / 8,
    ensures
        b == !(yaml_spec(text@) matches Err(YamlFault::Slice)),
{
    match yaml_core(text) {
        Err(YErr::Slice) => false,
        _ => true,
    }
}

} // verus!
