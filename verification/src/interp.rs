//! String interpolation: a string literal with `{name}`, `{obj.field}` or
//! `{name:spec}` placeholders becomes the sum of its literal pieces and the
//! placeholders' values as text. Braces around anything else stay literal.

use vstd::prelude::*;
use crate::ast::{BinOp, Expr};
use crate::text::{str_chars, is_ascii_digit_spec, is_ascii_alnum_spec, is_ascii_alnum, push_char, push_str, push_chars};
use crate::tomlparse::{trim_spec, trim_range, first_index, lemma_first_index, find_char, string_of};

verus! {

// ── Placeholders ─────────────────────────────────────────────────────────────

/// A character of a placeholder name: Devanagari, ASCII letters and digits, `_`.
pub open spec fn ident_char(c: char) -> bool {
    ('\u{0900}' <= c && c <= '\u{097F}') || is_ascii_alnum_spec(c) || c == '_'
}

/// A placeholder name: not empty, not starting with a digit.
pub open spec fn is_ident_spec(s: Seq<char>) -> bool {
    &&& s.len() > 0
    &&& !is_ascii_digit_spec(s[0])
    &&& forall|i: int| 0 <= i < s.len() ==> ident_char(#[trigger] s[i])
}

/// A name, or two names around the first `.` (each trimmed).
pub open spec fn is_target_spec(s: Seq<char>) -> bool {
    let d = first_index(s, '.', 0);
    if d < s.len() {
        is_ident_spec(trim_spec(s.subrange(0, d))) && is_ident_spec(trim_spec(s.subrange(d + 1, s.len() as int)))
    } else {
        is_ident_spec(s)
    }
}

/// `e` reads the target written in `inner`: `obj.field` as a field of a
/// variable, else the variable (names trimmed).
pub open spec fn target_ok(e: Expr, inner: Seq<char>) -> bool {
    let s = trim_spec(inner);
    let d = first_index(s, '.', 0);
    if d < s.len() {
        &&& e matches Expr::Attr { obj, field }
        &&& (*obj matches Expr::Ident(o) && o@ == trim_spec(s.subrange(0, d)))
        &&& field@ == trim_spec(s.subrange(d + 1, s.len() as int))
    } else {
        e matches Expr::Ident(x) && x@ == s
    }
}

/// `name:spec` with a target before the first `:` and a format spec after it
/// that starts like one (a digit, `.`, `%`, `,` or `₹`): the two, trimmed.
pub open spec fn named_spec(t: Seq<char>) -> Option<(Seq<char>, Seq<char>)> {
    let c = first_index(t, ':', 0);
    if c >= t.len() {
        None
    } else {
        let tg = trim_spec(t.subrange(0, c));
        let sp = trim_spec(t.subrange(c + 1, t.len() as int));
        if !is_target_spec(tg) || sp.len() == 0 {
            None
        } else if !(is_ascii_digit_spec(sp[0]) || sp[0] == '.' || sp[0] == '%' || sp[0] == ',' || sp[0] == '₹') {
            None
        } else {
            Some((tg, sp))
        }
    }
}

/// A piece of an interpolated string.
pub enum Piece {
    /// Literal text.
    Lit(Seq<char>),
    /// `{target}`: the target's value as text.
    Target(Seq<char>),
    /// `{target:spec}`: the target formatted by `spec`.
    Spec(Seq<char>, Seq<char>),
}

/// What the text between `{` and `}` stands for.
pub open spec fn classify(inner: Seq<char>) -> Piece {
    let t = trim_spec(inner);
    if is_target_spec(t) {
        Piece::Target(inner)
    } else {
        match named_spec(t) {
            Some((tg, sp)) => Piece::Spec(tg, sp),
            None => Piece::Lit(seq!['{'] + inner + seq!['}']),
        }
    }
}

/// The pieces of `rest`: text up to each `{`, then what the braces hold; a
/// `{` without a closing `}` starts literal text to the end.
pub open spec fn fmt_parts(rest: Seq<char>) -> Seq<Piece>
    decreases rest.len(),
{
    if rest.len() == 0 {
        seq![]
    } else {
        let open = first_index(rest, '{', 0);
        if open >= rest.len() {
            seq![Piece::Lit(rest)]
        } else {
            proof {
                lemma_first_index(rest, '{', 0);
                lemma_first_index(rest.subrange(open + 1, rest.len() as int), '}', 0);
            }
            let pre = if open > 0 { seq![Piece::Lit(rest.subrange(0, open))] } else { seq![] };
            let after = rest.subrange(open + 1, rest.len() as int);
            let close = first_index(after, '}', 0);
            if close >= after.len() {
                pre + seq![Piece::Lit(rest.subrange(open, rest.len() as int))]
            } else {
                pre + seq![classify(after.subrange(0, close))] + fmt_parts(after.subrange(close + 1, after.len() as int))
            }
        }
    }
}

/// `e` is the expression for the piece `p`: literal text, `वाक्य(target)`,
/// or `स्वरूप("{:spec}", target)`.
pub open spec fn piece_ok(e: Expr, p: Piece) -> bool {
    match p {
        Piece::Lit(x) => e matches Expr::Str(s) && s@ == x,
        Piece::Target(inner) => {
            &&& e matches Expr::Call { name, args }
            &&& name@ == "वाक्य"@
            &&& args@.len() == 1
            &&& target_ok(args@[0], inner)
        },
        Piece::Spec(tg, sp) => {
            &&& e matches Expr::Call { name, args }
            &&& name@ == "स्वरूप"@
            &&& args@.len() == 2
            &&& (args@[0] matches Expr::Str(f) && f@ == seq!['{', ':'] + sp + seq!['}'])
            &&& target_ok(args@[1], tg)
        },
    }
}

/// `e` adds up the pieces from the left (an empty string when there are none).
pub open spec fn chain_ok(e: Expr, ps: Seq<Piece>) -> bool
    decreases ps.len(),
{
    if ps.len() == 0 {
        e matches Expr::Str(s) && s@.len() == 0
    } else if ps.len() == 1 {
        piece_ok(e, ps[0])
    } else {
        &&& e matches Expr::Binary { left, op, right }
        &&& op == BinOp::Add
        &&& piece_ok(*right, ps.last())
        &&& chain_ok(*left, ps.drop_last())
    }
}

// ── Checking names ───────────────────────────────────────────────────────────

fn ident_char_exec(c: char) -> (b: bool)
    ensures
        b == ident_char(c),
{
    ('\u{0900}' <= c && c <= '\u{097F}') || is_ascii_alnum(c) || c == '_'
}

fn is_ident_at(s: &[char], a: usize, b: usize) -> (r: bool)
    requires
        a <= b <= s@.len(),
    ensures
        r == is_ident_spec(s@.subrange(a as int, b as int)),
{
    let ghost t = s@.subrange(a as int, b as int);
    if a == b {
        return false;
    }
    assert(t[0] == s@[a as int]);
    if s[a] >= '0' && s[a] <= '9' {
        return false;
    }
    let mut i = a;
    while i < b
        invariant
            a <= i <= b <= s@.len(),
            t == s@.subrange(a as int, b as int),
            forall|j: int| 0 <= j < i - a ==> ident_char(#[trigger] t[j]),
        decreases b - i,
    {
        assert(t[i - a] == s@[i as int]);
        if !ident_char_exec(s[i]) {
            return false;
        }
        i = i + 1;
    }
    true
}

fn is_target_at(s: &[char], a: usize, b: usize) -> (r: bool)
    requires
        a <= b <= s@.len(),
    ensures
        r == is_target_spec(s@.subrange(a as int, b as int)),
{
    let ghost t = s@.subrange(a as int, b as int);
    let d = find_char(s, a, b, '.');
    if d < b {
        let (oa, ob) = trim_range(s, a, d);
        let (fa, fb) = trim_range(s, d + 1, b);
        assert(t.subrange(0, d - a) =~= s@.subrange(a as int, d as int));
        assert(t.subrange(d - a + 1, t.len() as int) =~= s@.subrange(d + 1, b as int));
        is_ident_at(s, oa, ob) && is_ident_at(s, fa, fb)
    } else {
        is_ident_at(s, a, b)
    }
}

/// Whether `s` is a placeholder name (see `is_ident_spec`).
pub fn is_interp_ident(s: &str) -> (r: bool)
    ensures
        r == is_ident_spec(s@),
{
    let c = str_chars(s);
    assert(c@.subrange(0, c@.len() as int) =~= s@);
    is_ident_at(c.as_slice(), 0, c.len())
}

/// Whether `s` is a placeholder target (see `is_target_spec`).
pub fn is_interp_target(s: &str) -> (r: bool)
    ensures
        r == is_target_spec(s@),
{
    let c = str_chars(s);
    assert(c@.subrange(0, c@.len() as int) =~= s@);
    is_target_at(c.as_slice(), 0, c.len())
}

// ── Building expressions ─────────────────────────────────────────────────────

fn target_expr_at(s: &[char], a: usize, b: usize) -> (e: Expr)
    requires
        a <= b <= s@.len(),
    ensures
        target_ok(e, s@.subrange(a as int, b as int)),
{
    let (ta, tb) = trim_range(s, a, b);
    let ghost t = s@.subrange(ta as int, tb as int);
    let d = find_char(s, ta, tb, '.');
    if d < tb {
        let (oa, ob) = trim_range(s, ta, d);
        let (fa, fb) = trim_range(s, d + 1, tb);
        assert(t.subrange(0, d - ta) =~= s@.subrange(ta as int, d as int));
        assert(t.subrange(d - ta + 1, t.len() as int) =~= s@.subrange(d + 1, tb as int));
        Expr::Attr { obj: Box::new(Expr::Ident(string_of(s, oa, ob))), field: string_of(s, fa, fb) }
    } else {
        Expr::Ident(string_of(s, ta, tb))
    }
}

/// The expression for the target `inner` (see `target_ok`).
pub fn fmt_target_expr(inner: &str) -> (e: Expr)
    ensures
        target_ok(e, inner@),
{
    let c = str_chars(inner);
    assert(c@.subrange(0, c@.len() as int) =~= inner@);
    target_expr_at(c.as_slice(), 0, c.len())
}

/// `वाक्य(target)`: the target's value as text.
pub fn fmt_part_expr(inner: &str) -> (e: Expr)
    ensures
        piece_ok(e, Piece::Target(inner@)),
{
    let mut args: Vec<Expr> = Vec::new();
    args.push(fmt_target_expr(inner));
    Expr::Call { name: "वाक्य".to_owned(), args }
}

fn named_spec_at(s: &[char], a: usize, b: usize) -> (r: Option<Expr>)
    requires
        a <= b <= s@.len(),
    ensures
        match named_spec(s@.subrange(a as int, b as int)) {
            None => r is None,
            Some((tg, sp)) => r matches Some(e) && piece_ok(e, Piece::Spec(tg, sp)),
        },
{
    let ghost t = s@.subrange(a as int, b as int);
    let c = find_char(s, a, b, ':');
    if c >= b {
        return None;
    }
    let (ga, gb) = trim_range(s, a, c);
    let (pa, pb) = trim_range(s, c + 1, b);
    assert(t.subrange(0, c - a) =~= s@.subrange(a as int, c as int));
    assert(t.subrange(c - a + 1, t.len() as int) =~= s@.subrange(c + 1, b as int));
    if !is_target_at(s, ga, gb) || pa == pb {
        return None;
    }
    let first = s[pa];
    assert(s@.subrange(pa as int, pb as int)[0] == first);
    if !((first >= '0' && first <= '9') || first == '.' || first == '%' || first == ',' || first == '₹') {
        return None;
    }
    let mut f = String::new();
    push_char(&mut f, '{');
    push_char(&mut f, ':');
    push_chars(&mut f, s, pa, pb);
    push_char(&mut f, '}');
    assert(f@ =~= seq!['{', ':'] + s@.subrange(pa as int, pb as int) + seq!['}']);
    let mut args: Vec<Expr> = Vec::new();
    args.push(Expr::Str(f));
    args.push(target_expr_at(s, ga, gb));
    Some(Expr::Call { name: "स्वरूप".to_owned(), args })
}

/// `{name:spec}` as `स्वरूप("{:spec}", name)`, when the text is one (see
/// `named_spec`).
pub fn named_spec_expr(inner: &str) -> (r: Option<Expr>)
    ensures
        match named_spec(inner@) {
            None => r is None,
            Some((tg, sp)) => r matches Some(e) && piece_ok(e, Piece::Spec(tg, sp)),
        },
{
    let c = str_chars(inner);
    assert(c@.subrange(0, c@.len() as int) =~= inner@);
    named_spec_at(c.as_slice(), 0, c.len())
}

/// The expression for the text between a `{` and its `}` (see `classify`).
fn piece_at(s: &[char], a: usize, b: usize) -> (e: Expr)
    requires
        a <= b <= s@.len(),
    ensures
        piece_ok(e, classify(s@.subrange(a as int, b as int))),
{
    let ghost inner = s@.subrange(a as int, b as int);
    let (ta, tb) = trim_range(s, a, b);
    if is_target_at(s, ta, tb) {
        let mut args: Vec<Expr> = Vec::new();
        args.push(target_expr_at(s, a, b));
        return Expr::Call { name: "वाक्य".to_owned(), args };
    }
    match named_spec_at(s, ta, tb) {
        Some(e) => e,
        None => {
            let mut t = String::new();
            push_char(&mut t, '{');
            push_chars(&mut t, s, a, b);
            push_char(&mut t, '}');
            assert(t@ =~= seq!['{'] + inner + seq!['}']);
            Expr::Str(t)
        },
    }
}

/// A call, with keyword arguments when there are any.
pub fn make_call(name: String, args: Vec<Expr>, kwargs: Vec<(String, Expr)>) -> (e: Expr)
    ensures
        kwargs@.len() == 0 ==> e == (Expr::Call { name, args }),
        kwargs@.len() > 0 ==> e == (Expr::CallKw { name, args, kwargs }),
{
    if kwargs.len() == 0 {
        Expr::Call { name, args }
    } else {
        Expr::CallKw { name, args, kwargs }
    }
}

/// A method call, with keyword arguments when there are any.
pub fn make_method_call(object: Expr, method: String, args: Vec<Expr>, kwargs: Vec<(String, Expr)>) -> (e: Expr)
    ensures
        kwargs@.len() == 0 ==> e == (Expr::MethodCall { object: Box::new(object), method, args }),
        kwargs@.len() > 0 ==> e == (Expr::MethodCallKw { object: Box::new(object), method, args, kwargs }),
{
    if kwargs.len() == 0 {
        Expr::MethodCall { object: Box::new(object), method, args }
    } else {
        Expr::MethodCallKw { object: Box::new(object), method, args, kwargs }
    }
}

// ── Strings ──────────────────────────────────────────────────────────────────

/// The expression for an interpolated string literal (see `fmt_parts` and
/// `chain_ok`).
pub fn parse_fmt_string(s: &str) -> (e: Expr)
    ensures
        chain_ok(e, fmt_parts(s@)),
{
    let cs = str_chars(s);
    let n = cs.len();
    let mut parts: Vec<Expr> = Vec::new();
    let ghost mut model: Seq<Piece> = seq![];
    let mut i: usize = 0;
    assert(cs@.subrange(0, n as int) =~= s@);
    while i < n
        invariant
            cs@ == s@,
            n == cs@.len(),
            i <= n,
            parts@.len() == model.len(),
            forall|k: int| 0 <= k < parts@.len() ==> piece_ok(#[trigger] parts@[k], model[k]),
            model + fmt_parts(cs@.subrange(i as int, n as int)) == fmt_parts(s@),
        decreases n - i,
    {
        let ghost rest = cs@.subrange(i as int, n as int);
        let open = find_char(cs.as_slice(), i, n, '{');
        if open >= n {
            parts.push(Expr::Str(string_of(cs.as_slice(), i, n)));
            proof {
                model = model.push(Piece::Lit(rest));
                assert(cs@.subrange(n as int, n as int) =~= Seq::<char>::empty());
            }
            i = n;
        } else {
            let ghost pre_model = model;
            if open > i {
                parts.push(Expr::Str(string_of(cs.as_slice(), i, open)));
                proof {
                    assert(cs@.subrange(i as int, open as int) =~= rest.subrange(0, open - i));
                    model = model.push(Piece::Lit(rest.subrange(0, open - i)));
                }
            }
            let ghost after = rest.subrange(open - i + 1, rest.len() as int);
            assert(after =~= cs@.subrange(open + 1, n as int));
            let close = find_char(cs.as_slice(), open + 1, n, '}');
            if close >= n {
                parts.push(Expr::Str(string_of(cs.as_slice(), open, n)));
                proof {
                    assert(cs@.subrange(open as int, n as int) =~= rest.subrange(open - i, rest.len() as int));
                    model = model.push(Piece::Lit(rest.subrange(open - i, rest.len() as int)));
                    assert(cs@.subrange(n as int, n as int) =~= Seq::<char>::empty());
                }
                i = n;
            } else {
                parts.push(piece_at(cs.as_slice(), open + 1, close));
                proof {
                    assert(cs@.subrange(open + 1, close as int) =~= after.subrange(0, close - open - 1));
                    model = model.push(classify(after.subrange(0, close - open - 1)));
                    assert(cs@.subrange(close + 1, n as int) =~= after.subrange(close - open, after.len() as int));
                }
                i = close + 1;
            }
        }
    }
    assert(cs@.subrange(i as int, n as int) =~= Seq::<char>::empty());
    assert(model =~= fmt_parts(s@));
    if parts.len() == 0 {
        return Expr::Str(String::new());
    }
    // add the pieces up from the left
    let mut rest_parts: Vec<Expr> = Vec::new();
    while parts.len() > 1
        invariant
            parts@.len() >= 1,
            model.len() <= usize::MAX,
            parts@.len() + rest_parts@.len() == model.len(),
            forall|k: int| 0 <= k < parts@.len() ==> piece_ok(#[trigger] parts@[k], model[k]),
            forall|k: int| 0 <= k < rest_parts@.len() ==> piece_ok(#[trigger] rest_parts@[k], model[model.len() - 1 - k]),
        decreases parts@.len(),
    {
        let p = parts.pop().unwrap();
        rest_parts.push(p);
    }
    let mut e = parts.pop().unwrap();
    let mut k: usize = 1;
    while rest_parts.len() > 0
        invariant
            1 <= k <= model.len(),
            model.len() <= usize::MAX,
            k + rest_parts@.len() == model.len(),
            forall|j: int| 0 <= j < rest_parts@.len() ==> piece_ok(#[trigger] rest_parts@[j], model[model.len() - 1 - j]),
            chain_ok(e, model.take(k as int)),
        decreases rest_parts@.len(),
    {
        let p = rest_parts.pop().unwrap();
        assert(piece_ok(p, model[k as int]));
        e = Expr::Binary { left: Box::new(e), op: BinOp::Add, right: Box::new(p) };
        proof {
            let t = model.take(k + 1);
            assert(t.drop_last() =~= model.take(k as int));
            assert(t.last() == model[k as int]);
        }
        k = k + 1;
    }
    assert(model.take(k as int) =~= model);
    e
}

} // verus!
