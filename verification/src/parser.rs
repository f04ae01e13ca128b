//! The parser: LIPI's SOV grammar over the tokens of a program, with its
//! INDENT/DEDENT blocks and kāraka annotations, into the syntax tree of
//! `ast`. `parse_spec` states the grammar; `parse` and `parse_recover` follow it.
use vstd::prelude::*;
use crate::ast::{
    ArmM, BinOp, CatchClause, CatchM, CmpOp, Expr, ExprM, Karaka, MilaoArm, MilaoPattern, Param, ParamM,
    PatternM, Stmt, StmtM, VariantM, ViKalpVariant, expr_view, exprs_view, stmt_view, stmts_view,
    kw_view, opt_type_view, names_view, params_view, param_view, spread_view, pairs_view, catches_view,
    variants_view, arms_view, opt_str_view, opt_expr_view, catch_view, variant_view, arm_view,
};
use crate::interp::{Piece, chain_ok, piece_ok, target_ok, fmt_parts, parse_fmt_string, make_call, make_method_call};
use crate::text::{decimal, decimal_spec, chars_to_string, push_str, str_chars, str_eq};
use crate::tomlparse::{trim_spec, first_index};
use crate::types::{TypeHint, TypeModel, spec_from_name};

verus! {

/// Kinds of tokens.
#[derive(Clone, Copy, PartialEq, Eq, Structural, Debug)]
pub enum TokenKind {
    Aayat, Abhilekh, Adhikaran, Agla, Anyatha, Apadan, Arrow, Assign, At, Aur, BandKaro,
    BarKaro, Barabar, Batao, BitAnd, BitNot, BitOr, BitXor, Bool, Colon, ColonEq, Comma,
    Dedent, Dot, Eof, EqEq, Fal, Gt, GtEq, Hai, Ident, Indent, JabTak, Jancho, Karan, Karma,
    Karta, KeRupMein, KeeLiye, Koshish, LBrace, LBracket, LParen, LShift, Lambda, Likho, Lt,
    LtEq, Mein, MeinHai, Milao, Minus, Nahin, NahinHai, Newline, NotEq, Number, Pakdo,
    Parikshan, Percent, Phenko, Plus, Pratiksha, RBrace, RBracket, RParen, RShift, Saath,
    Sajha, Sampradan, Sar, SeAdhik, SeKam, Shuddha, Slash, SlashSlash, Star, Sthir, Str, Toh,
    Utpann, Vaishvik, Varg, Vidhi, Vikalp, Ya, Yadi,
}

/// A token: its kind; the text of a name (`Ident`) or string literal (`Str`);
/// the bits of a number literal's `f64` value (`Number`); the value of a
/// `Bool`; its source line; and how the tokenizer prints it in messages.
pub struct Token {
    pub kind: TokenKind,
    pub text: String,
    pub number: u64,
    pub flag: bool,
    pub line: usize,
    pub shown: String,
}

/// Outcome of parsing a part: the value and the position after it, or the
/// error message and the position reached when it was found.
pub type PR<A> = Result<(A, int), (Seq<char>, int)>;

/// Token lists the parser reads: at least one token, the last `Eof`.
pub open spec fn tokens_wf(t: Seq<Token>) -> bool {
    &&& t.len() > 0
    &&& t.last().kind == TokenKind::Eof
    &&& t.len() < usize::MAX
}

/// The token at `p` (the last one from there on).
pub open spec fn at(t: Seq<Token>, p: int) -> Token {
    if p < t.len() - 1 {
        t[p]
    } else {
        t[t.len() - 1]
    }
}

pub open spec fn kd(t: Seq<Token>, p: int) -> TokenKind {
    at(t, p).kind
}

/// The position after taking the token at `p` (the last one stays).
pub open spec fn adv(t: Seq<Token>, p: int) -> int {
    if p < t.len() - 1 {
        p + 1
    } else {
        p
    }
}

/// `(line N)` for the token at `p`.
pub open spec fn line_note(t: Seq<Token>, p: int) -> Seq<char> {
    "(line "@ + decimal_spec(at(t, p).line as nat) + ")"@
}

/// How an expected token kind is named in messages.
pub open spec fn kind_name(k: TokenKind) -> Seq<char> {
    match k {
        TokenKind::Anyatha => "Anyatha"@,
        TokenKind::BarKaro => "BarKaro"@,
        TokenKind::Colon => "Colon"@,
        TokenKind::Dot => "Dot"@,
        TokenKind::Hai => "Hai"@,
        TokenKind::KeRupMein => "KeRupMein"@,
        TokenKind::LParen => "LParen"@,
        TokenKind::Mein => "Mein"@,
        TokenKind::RBrace => "RBrace"@,
        TokenKind::RBracket => "RBracket"@,
        TokenKind::RParen => "RParen"@,
        TokenKind::Toh => "Toh"@,
        TokenKind::Varg => "Varg"@,
        TokenKind::Vidhi => "Vidhi"@,
        _ => "?"@,
    }
}

/// A position past `Newline` tokens.
pub open spec fn skip_nl(t: Seq<Token>, p: int) -> int
    decreases t.len() - p,
{
    if 0 <= p < t.len() - 1 && kd(t, p) == TokenKind::Newline {
        skip_nl(t, p + 1)
    } else {
        p
    }
}

pub proof fn lemma_skip_nl(t: Seq<Token>, p: int)
    requires
        0 <= p < t.len(),
    ensures
        p <= skip_nl(t, p) < t.len(),
    decreases t.len() - p,
{
    if 0 <= p < t.len() - 1 && kd(t, p) == TokenKind::Newline {
        lemma_skip_nl(t, p + 1);
    }
}

pub open spec fn ident_spec(t: Seq<Token>, p: int) -> PR<Seq<char>> {
    if kd(t, p) == TokenKind::Ident {
        Ok((at(t, p).text@, adv(t, p)))
    } else {
        Err(("नाम अपेक्षित "@ + line_note(t, p) + ", मिला: "@ + at(t, p).shown@, adv(t, p)))
    }
}

/// A field or method name: a name, or one of the keywords that double as
/// method names.
pub open spec fn field_spec(t: Seq<Token>, p: int) -> PR<Seq<char>> {
    let q = adv(t, p);
    match kd(t, p) {
        TokenKind::Ident => Ok((at(t, p).text@, q)),
        TokenKind::Milao => Ok(("मिलाओ"@, q)),
        TokenKind::Batao => Ok(("बताओ"@, q)),
        TokenKind::Likho => Ok(("लिखो"@, q)),
        TokenKind::Aur => Ok(("और"@, q)),
        TokenKind::Ya => Ok(("या"@, q)),
        TokenKind::Agla => Ok(("अगला"@, q)),
        TokenKind::Vikalp => Ok(("विकल्प"@, q)),
        _ => Err(("नाम अपेक्षित "@ + line_note(t, p) + ", मिला: "@ + at(t, p).shown@, q)),
    }
}

/// Taking a token of kind `k`.
pub open spec fn expect_spec(t: Seq<Token>, p: int, k: TokenKind) -> Result<int, (Seq<char>, int)> {
    if kd(t, p) == k {
        Ok(adv(t, p))
    } else {
        Err(("अपेक्षित "@ + kind_name(k) + " "@ + line_note(t, p) + ", मिला "@ + at(t, p).shown@, adv(t, p)))
    }
}

pub open spec fn karaka_of(k: TokenKind) -> Option<Karaka> {
    match k {
        TokenKind::Karta => Some(Karaka::Karta),
        TokenKind::Karma => Some(Karaka::Karma),
        TokenKind::Karan => Some(Karaka::Karana),
        TokenKind::Sampradan => Some(Karaka::Sampradan),
        TokenKind::Apadan => Some(Karaka::Apadan),
        TokenKind::Adhikaran => Some(Karaka::Adhikaran),
        _ => None,
    }
}

/// An optional kāraka word.
pub open spec fn karaka_spec(t: Seq<Token>, p: int) -> (Option<Karaka>, int) {
    match karaka_of(kd(t, p)) {
        Some(k) => (Some(k), adv(t, p)),
        None => (None, p),
    }
}

/// An optional `: प्रकार` (or, for `arrow`, `-> प्रकार`) annotation.
pub open spec fn opt_type_spec(t: Seq<Token>, p: int, arrow: bool) -> PR<Option<TypeModel>> {
    if kd(t, p) == (if arrow { TokenKind::Arrow } else { TokenKind::Colon }) {
        match ident_spec(t, adv(t, p)) {
            Ok((n, q)) => Ok((Some(spec_from_name(n)), q)),
            Err(e) => Err(e),
        }
    } else {
        Ok((None, p))
    }
}

/// A constant parameter default: a number (possibly negated), a string or a
/// truth value.
pub open spec fn default_spec(t: Seq<Token>, p: int) -> PR<ExprM> {
    let neg = kd(t, p) == TokenKind::Minus;
    let p1 = if neg { adv(t, p) } else { p };
    match kd(t, p1) {
        TokenKind::Number => Ok((ExprM::Number(if neg { at(t, p1).number ^ 0x8000_0000_0000_0000u64 } else { at(t, p1).number }), adv(t, p1))),
        TokenKind::Str if !neg => Ok((ExprM::Str(at(t, p1).text@), adv(t, p1))),
        TokenKind::Bool if !neg => Ok((ExprM::Bool(at(t, p1).flag), adv(t, p1))),
        _ => Err(("डिफ़ॉल्ट मान केवल स्थिरांक हो सकता है — संख्या, वाक्य या सत्य/असत्य "@ + line_note(t, p), p1)),
    }
}

// ── Interpolated strings ──────────────────────────────────────────────────────

pub open spec fn target_model(inner: Seq<char>) -> ExprM {
    let s = trim_spec(inner);
    let d = first_index(s, '.', 0);
    if d < s.len() {
        ExprM::Attr(
            Box::new(ExprM::Ident(trim_spec(s.subrange(0, d)))),
            trim_spec(s.subrange(d + 1, s.len() as int)),
        )
    } else {
        ExprM::Ident(s)
    }
}

pub open spec fn piece_model(p: Piece) -> ExprM {
    match p {
        Piece::Lit(x) => ExprM::Str(x),
        Piece::Target(inner) => ExprM::Call("वाक्य"@, seq![target_model(inner)]),
        Piece::Spec(tg, sp) => ExprM::Call(
            "स्वरूप"@,
            seq![ExprM::Str(seq!['{', ':'] + sp + seq!['}']), target_model(tg)],
        ),
    }
}

/// The pieces added up from the left (an empty string for none).
pub open spec fn fmt_model(ps: Seq<Piece>) -> ExprM
    decreases ps.len(),
{
    if ps.len() == 0 {
        ExprM::Str(seq![])
    } else if ps.len() == 1 {
        piece_model(ps[0])
    } else {
        ExprM::Binary(Box::new(fmt_model(ps.drop_last())), BinOp::Add, Box::new(piece_model(ps.last())))
    }
}

/// A string literal: interpolated when it holds both `{` and `}`.
pub open spec fn str_model(s: Seq<char>) -> ExprM {
    if s.contains('{') && s.contains('}') {
        fmt_model(fmt_parts(s))
    } else {
        ExprM::Str(s)
    }
}

// ── Expressions ───────────────────────────────────────────────────────────────

/// The operator a token stands for at a binary precedence level: 9 `या`,
/// 8 `और`, 7 `|`, 6 `^`, 5 `&`, 3 shifts, 2 `+ -`, 1 `* / // %`.
pub open spec fn level_op(lvl: nat, k: TokenKind) -> Option<BinOp> {
    if lvl == 9 && k == TokenKind::Ya {
        Some(BinOp::Or)
    } else if lvl == 8 && k == TokenKind::Aur {
        Some(BinOp::And)
    } else if lvl == 7 && k == TokenKind::BitOr {
        Some(BinOp::BitOr)
    } else if lvl == 6 && k == TokenKind::BitXor {
        Some(BinOp::BitXor)
    } else if lvl == 5 && k == TokenKind::BitAnd {
        Some(BinOp::BitAnd)
    } else if lvl == 3 && k == TokenKind::LShift {
        Some(BinOp::LShift)
    } else if lvl == 3 && k == TokenKind::RShift {
        Some(BinOp::RShift)
    } else if lvl == 2 && k == TokenKind::Plus {
        Some(BinOp::Add)
    } else if lvl == 2 && k == TokenKind::Minus {
        Some(BinOp::Sub)
    } else if lvl == 1 && k == TokenKind::Star {
        Some(BinOp::Mul)
    } else if lvl == 1 && k == TokenKind::Slash {
        Some(BinOp::Div)
    } else if lvl == 1 && k == TokenKind::SlashSlash {
        Some(BinOp::FloorDiv)
    } else if lvl == 1 && k == TokenKind::Percent {
        Some(BinOp::Mod)
    } else {
        None
    }
}

pub open spec fn compare_op(k: TokenKind) -> Option<CmpOp> {
    match k {
        TokenKind::SeAdhik => Some(CmpOp::SeAdhik),
        TokenKind::SeKam => Some(CmpOp::SeKam),
        TokenKind::Barabar => Some(CmpOp::Eq),
        TokenKind::EqEq => Some(CmpOp::Eq),
        TokenKind::NotEq => Some(CmpOp::NotEq),
        TokenKind::Lt => Some(CmpOp::Lt),
        TokenKind::Gt => Some(CmpOp::Gt),
        TokenKind::LtEq => Some(CmpOp::LtEq),
        TokenKind::GtEq => Some(CmpOp::GtEq),
        _ => None,
    }
}

/// Whether `q` is a position at or after `p` (`strict`: after it).
pub open spec fn later(t: Seq<Token>, p: int, q: int, strict: bool) -> bool {
    (if strict { p < q } else { p <= q }) && q < t.len()
}

/// The error for a result position that is not later: it cannot happen.
pub open spec fn stuck(t: Seq<Token>, p: int) -> Seq<char> {
    "व्याकरण: कोई प्रगति नहीं "@ + line_note(t, p)
}

/// An expression.
pub open spec fn expr_spec(t: Seq<Token>, p: int) -> PR<ExprM>
    decreases t.len() - p, 60int when tokens_wf(t) && 0 <= p < t.len()
{
    bin_spec(t, p, 9)
}

/// A binary level: operands of the level below, joined from the left.
pub open spec fn bin_spec(t: Seq<Token>, p: int, lvl: nat) -> PR<ExprM>
    decreases t.len() - p, 40 + 2 * lvl as int when tokens_wf(t) && 0 <= p < t.len()
{
    match operand_spec(t, p, lvl) {
        Err(e) => Err(e),
        Ok((left, q)) => if !later(t, p, q, false) {
            Err((stuck(t, p), p))
        } else {
            bin_rest(t, q, lvl, left)
        },
    }
}

/// The operand of a binary level.
pub open spec fn operand_spec(t: Seq<Token>, p: int, lvl: nat) -> PR<ExprM>
    decreases t.len() - p, 40 + 2 * lvl as int - 1 when tokens_wf(t) && 0 <= p < t.len()
{
    if lvl == 0 || lvl > 9 {
        unary_spec(t, p)
    } else if lvl == 5 {
        compare_spec(t, p)
    } else if lvl == 4 {
        bin_spec(t, p, 3)
    } else {
        bin_spec(t, p, (lvl - 1) as nat)
    }
}

pub open spec fn bin_rest(t: Seq<Token>, p: int, lvl: nat, left: ExprM) -> PR<ExprM>
    decreases t.len() - p, 40 + 2 * lvl as int - 1 when tokens_wf(t) && 0 <= p < t.len()
{
    match level_op(lvl, kd(t, p)) {
        None => Ok((left, p)),
        Some(op) => {
            let p1 = adv(t, p);
            if !later(t, p, p1, true) {
                Err((stuck(t, p), p))
            } else {
                match operand_spec(t, p1, lvl) {
                    Err(e) => Err(e),
                    Ok((right, q)) => if !later(t, p1, q, false) {
                        Err((stuck(t, p), p))
                    } else {
                        bin_rest(t, q, lvl, ExprM::Binary(Box::new(left), op, Box::new(right)))
                    },
                }
            }
        },
    }
}

/// Comparisons: membership (`में_है`, `नहीं_है`), or a chain `a < b < c`
/// read as `(a < b) और (b < c)`.
pub open spec fn compare_spec(t: Seq<Token>, p: int) -> PR<ExprM>
    decreases t.len() - p, 47int when tokens_wf(t) && 0 <= p < t.len()
{
    match bin_spec(t, p, 3) {
        Err(e) => Err(e),
        Ok((left, q)) => if !later(t, p, q, false) {
            Err((stuck(t, p), p))
        } else if kd(t, q) == TokenKind::MeinHai || kd(t, q) == TokenKind::NahinHai {
            let q1 = adv(t, q);
            if !later(t, q, q1, true) {
                Err((stuck(t, p), p))
            } else {
                match bin_spec(t, q1, 3) {
                    Err(e) => Err(e),
                    Ok((c, q2)) => Ok((ExprM::Membership(Box::new(left), Box::new(c), kd(t, q) == TokenKind::NahinHai), q2)),
                }
            }
        } else {
            compare_chain(t, q, left, None)
        },
    }
}

pub open spec fn compare_chain(t: Seq<Token>, p: int, left: ExprM, acc: Option<ExprM>) -> PR<ExprM>
    decreases t.len() - p, 46int when tokens_wf(t) && 0 <= p < t.len()
{
    match compare_op(kd(t, p)) {
        None => Ok((
            match acc {
                Some(a) => a,
                None => left,
            },
            p,
        )),
        Some(op) => {
            let p1 = adv(t, p);
            if !later(t, p, p1, true) {
                Err((stuck(t, p), p))
            } else {
                match bin_spec(t, p1, 3) {
                    Err(e) => Err(e),
                    Ok((right, q)) => if !later(t, p1, q, false) {
                        Err((stuck(t, p), p))
                    } else {
                        let cx = ExprM::Compare(Box::new(left), op, Box::new(right));
                        let acc2 = match acc {
                            None => cx,
                            Some(prev) => ExprM::Binary(Box::new(prev), BinOp::And, Box::new(cx)),
                        };
                        compare_chain(t, q, right, Some(acc2))
                    },
                }
            }
        },
    }
}

/// Unary `-` (as `0 - x`), `~` and `नहीं`.
pub open spec fn unary_spec(t: Seq<Token>, p: int) -> PR<ExprM>
    decreases t.len() - p, 30int when tokens_wf(t) && 0 <= p < t.len()
{
    let k = kd(t, p);
    if k == TokenKind::Minus || k == TokenKind::BitNot || k == TokenKind::Nahin {
        let p1 = adv(t, p);
        if !later(t, p, p1, true) {
            Err((stuck(t, p), p))
        } else {
            match (if k == TokenKind::Nahin { unary_spec(t, p1) } else { primary_spec(t, p1) }) {
                Err(e) => Err(e),
                Ok((x, q)) => Ok((
                    if k == TokenKind::Minus {
                        ExprM::Binary(Box::new(ExprM::Number(0)), BinOp::Sub, Box::new(x))
                    } else if k == TokenKind::BitNot {
                        ExprM::BitNot(Box::new(x))
                    } else {
                        ExprM::Not(Box::new(x))
                    },
                    q,
                )),
            }
        }
    } else {
        primary_spec(t, p)
    }
}

/// An atom and its postfix `[..]`, `.field` and `.method(..)` parts.
pub open spec fn primary_spec(t: Seq<Token>, p: int) -> PR<ExprM>
    decreases t.len() - p, 28int when tokens_wf(t) && 0 <= p < t.len()
{
    match atom_spec(t, p) {
        Err(e) => Err(e),
        Ok((x, q)) => if !later(t, p, q, false) {
            Err((stuck(t, p), p))
        } else {
            postfix_spec(t, q, x)
        },
    }
}

/// A call or method call, keyword arguments making it the `Kw` form.
pub open spec fn call_model(name: Seq<char>, args: Seq<ExprM>, kw: Seq<(Seq<char>, ExprM)>) -> ExprM {
    if kw.len() == 0 {
        ExprM::Call(name, args)
    } else {
        ExprM::CallKw(name, args, kw)
    }
}

pub open spec fn method_model(obj: ExprM, m: Seq<char>, args: Seq<ExprM>, kw: Seq<(Seq<char>, ExprM)>) -> ExprM {
    if kw.len() == 0 {
        ExprM::MethodCall(Box::new(obj), m, args)
    } else {
        ExprM::MethodCallKw(Box::new(obj), m, args, kw)
    }
}

/// `(args)` after its `(`: the arguments, then `)`.
pub open spec fn call_args_spec(t: Seq<Token>, p: int) -> PR<(Seq<ExprM>, Seq<(Seq<char>, ExprM)>)>
    decreases t.len() - p, 68int when tokens_wf(t) && 0 <= p < t.len()
{
    match args_spec(t, p) {
        Err(e) => Err(e),
        Ok((a, q)) => if !later(t, p, q, false) {
            Err((stuck(t, p), p))
        } else {
            match expect_spec(t, q, TokenKind::RParen) {
                Err(e) => Err(e),
                Ok(q2) => Ok((a, q2)),
            }
        },
    }
}

/// `.name` or `.name(args)` after the `.`, applied to `obj`.
pub open spec fn member_spec(t: Seq<Token>, p: int, obj: ExprM) -> PR<ExprM>
    decreases t.len() - p, 69int when tokens_wf(t) && 0 <= p < t.len()
{
    match field_spec(t, p) {
        Err(e) => Err(e),
        Ok((f, q)) => if kd(t, q) == TokenKind::LParen {
            let q1 = adv(t, q);
            if !later(t, p, q1, true) {
                Err((stuck(t, p), p))
            } else {
                match call_args_spec(t, q1) {
                    Err(e) => Err(e),
                    Ok(((a, kw), q2)) => Ok((method_model(obj, f, a, kw), q2)),
                }
            }
        } else {
            Ok((ExprM::Attr(Box::new(obj), f), q))
        },
    }
}

pub open spec fn postfix_spec(t: Seq<Token>, p: int, x: ExprM) -> PR<ExprM>
    decreases t.len() - p, 27int when tokens_wf(t) && 0 <= p < t.len()
{
    let k = kd(t, p);
    if k == TokenKind::LBracket || k == TokenKind::Dot {
        let p1 = adv(t, p);
        if !later(t, p, p1, true) {
            Err((stuck(t, p), p))
        } else {
            match (if k == TokenKind::LBracket { bracket_spec(t, p1, x) } else { member_spec(t, p1, x) }) {
                Err(e) => Err(e),
                Ok((y, q)) => if !later(t, p1, q, false) {
                    Err((stuck(t, p), p))
                } else {
                    postfix_spec(t, q, y)
                },
            }
        }
    } else {
        Ok((x, p))
    }
}

/// After `[`: an index `[i]` or a slice `[a:b:c]` (parts optional).
pub open spec fn bracket_spec(t: Seq<Token>, p: int, obj: ExprM) -> PR<ExprM>
    decreases t.len() - p, 65int when tokens_wf(t) && 0 <= p < t.len()
{
    if kd(t, p) == TokenKind::Colon {
        slice_rest_spec(t, adv(t, p), obj, None)
    } else {
        match expr_spec(t, p) {
            Err(e) => Err(e),
            Ok((i, q)) => if !later(t, p, q, false) {
                Err((stuck(t, p), p))
            } else if kd(t, q) == TokenKind::RBracket {
                Ok((ExprM::Index(Box::new(obj), Box::new(i)), adv(t, q)))
            } else {
                match expect_spec(t, q, TokenKind::Colon) {
                    Err(e) => Err(e),
                    Ok(q1) => if !later(t, p, q1, true) {
                        Err((stuck(t, p), p))
                    } else {
                        slice_rest_spec(t, q1, obj, Some(i))
                    },
                }
            },
        }
    }
}

/// Optionally an expression, absent before any of the given closing kinds.
pub open spec fn opt_expr_spec(t: Seq<Token>, p: int, colon_ends: bool) -> PR<Option<ExprM>>
    decreases t.len() - p, 63int when tokens_wf(t) && 0 <= p < t.len()
{
    if (colon_ends && kd(t, p) == TokenKind::Colon) || kd(t, p) == TokenKind::RBracket {
        Ok((None, p))
    } else {
        match expr_spec(t, p) {
            Err(e) => Err(e),
            Ok((x, q)) => Ok((Some(x), q)),
        }
    }
}

/// The `end[:step]]` of a slice, after its first `:`.
pub open spec fn slice_rest_spec(t: Seq<Token>, p: int, obj: ExprM, start: Option<ExprM>) -> PR<ExprM>
    decreases t.len() - p, 64int when tokens_wf(t) && 0 <= p < t.len()
{
    match opt_expr_spec(t, p, true) {
        Err(e) => Err(e),
        Ok((end, q)) => if !later(t, p, q, false) {
            Err((stuck(t, p), p))
        } else {
            let r = if kd(t, q) == TokenKind::Colon {
                let q1 = adv(t, q);
                if !later(t, q, q1, true) {
                    Err((stuck(t, p), p))
                } else {
                    opt_expr_spec(t, q1, false)
                }
            } else {
                Ok((None, q))
            };
            match r {
                Err(e) => Err(e),
                Ok((step, q2)) => match expect_spec(t, q2, TokenKind::RBracket) {
                    Err(e) => Err(e),
                    Ok(q3) => Ok((
                        ExprM::Slice(
                            Box::new(obj),
                            match start {
                                Some(s) => Some(Box::new(s)),
                                None => None,
                            },
                            match end {
                                Some(s) => Some(Box::new(s)),
                                None => None,
                            },
                            match step {
                                Some(s) => Some(Box::new(s)),
                                None => None,
                            },
                        ),
                        q3,
                    )),
                },
            }
        },
    }
}

/// Whether `kw` already has an entry named `n`.
pub open spec fn kw_has(kw: Seq<(Seq<char>, ExprM)>, n: Seq<char>) -> bool {
    exists|i: int| 0 <= i < kw.len() && #[trigger] kw[i].0 == n
}

/// Call arguments up to (not including) `)`: positional, then `name=value`.
pub open spec fn args_spec(t: Seq<Token>, p: int) -> PR<(Seq<ExprM>, Seq<(Seq<char>, ExprM)>)>
    decreases t.len() - p, 67int when tokens_wf(t) && 0 <= p < t.len()
{
    if kd(t, p) == TokenKind::RParen {
        Ok(((seq![], seq![]), p))
    } else {
        args_loop(t, p, seq![], seq![])
    }
}

pub open spec fn args_loop(t: Seq<Token>, p: int, args: Seq<ExprM>, kw: Seq<(Seq<char>, ExprM)>) -> PR<(Seq<ExprM>, Seq<(Seq<char>, ExprM)>)>
    decreases t.len() - p, 66int when tokens_wf(t) && 0 <= p < t.len()
{
    let is_kw = kd(t, p) == TokenKind::Ident && kd(t, adv(t, p)) == TokenKind::Assign;
    let one: PR<(Seq<ExprM>, Seq<(Seq<char>, ExprM)>)> = if is_kw {
        let name = at(t, p).text@;
        let p2 = adv(t, adv(t, p));
        if kw_has(kw, name) {
            Err(("कीवर्ड तर्क '"@ + name + "' दो बार दिया गया "@ + line_note(t, p), p2))
        } else if !later(t, p, p2, true) {
            Err((stuck(t, p), p))
        } else {
            match expr_spec(t, p2) {
                Err(e) => Err(e),
                Ok((v, q)) => Ok(((args, kw.push((name, v))), q)),
            }
        }
    } else if kw.len() > 0 {
        Err(("कीवर्ड तर्क के बाद स्थान-आधारित तर्क नहीं आ सकता "@ + line_note(t, p), p))
    } else {
        match expr_spec(t, p) {
            Err(e) => Err(e),
            Ok((v, q)) => Ok(((args.push(v), kw), q)),
        }
    };
    match one {
        Err(e) => Err(e),
        Ok(((a2, k2), q)) => if !later(t, p, q, false) {
            Err((stuck(t, p), p))
        } else if kd(t, q) == TokenKind::Comma {
            let q1 = adv(t, q);
            if !later(t, p, q1, true) {
                Err((stuck(t, p), p))
            } else {
                args_loop(t, q1, a2, k2)
            }
        } else {
            Ok(((a2, k2), q))
        },
    }
}

/// An atom: a literal, a name (with `:=`, a call or a member after it), a
/// parenthesised expression, `यदि .. तो .. अन्यथा ..`, a `लाम्डा`, a list
/// (or list comprehension) or a dictionary; `प्रतीक्षा` before a unary
/// expression.
pub open spec fn atom_spec(t: Seq<Token>, p: int) -> PR<ExprM>
    decreases t.len() - p, 26int when tokens_wf(t) && 0 <= p < t.len()
{
    let tok = at(t, p);
    let p1 = adv(t, p);
    if tok.kind == TokenKind::Pratiksha {
        if !later(t, p, p1, true) {
            Err((stuck(t, p), p))
        } else {
            match unary_spec(t, p1) {
                Err(e) => Err(e),
                Ok((x, q)) => Ok((ExprM::Await(Box::new(x)), q)),
            }
        }
    } else {
        match tok.kind {
            TokenKind::Number => Ok((ExprM::Number(tok.number), p1)),
            TokenKind::Str => Ok((str_model(tok.text@), p1)),
            TokenKind::Bool => Ok((ExprM::Bool(tok.flag), p1)),
            TokenKind::Ident => {
                let name = tok.text@;
                let k1 = kd(t, p1);
                let p2 = adv(t, p1);
                if k1 == TokenKind::ColonEq || k1 == TokenKind::LParen || k1 == TokenKind::Dot {
                    if !later(t, p, p2, true) {
                        Err((stuck(t, p), p))
                    } else if k1 == TokenKind::ColonEq {
                        match expr_spec(t, p2) {
                            Err(e) => Err(e),
                            Ok((v, q)) => Ok((ExprM::Walrus(name, Box::new(v)), q)),
                        }
                    } else if k1 == TokenKind::LParen {
                        match call_args_spec(t, p2) {
                            Err(e) => Err(e),
                            Ok(((a, kw), q)) => Ok((call_model(name, a, kw), q)),
                        }
                    } else {
                        member_spec(t, p2, ExprM::Ident(name))
                    }
                } else {
                    Ok((ExprM::Ident(name), p1))
                }
            },
            TokenKind::LParen => if !later(t, p, p1, true) {
                Err((stuck(t, p), p))
            } else {
                match expr_spec(t, p1) {
                    Err(e) => Err(e),
                    Ok((x, q)) => match expect_spec(t, q, TokenKind::RParen) {
                        Err(e) => Err(e),
                        Ok(q2) => Ok((x, q2)),
                    },
                }
            },
            TokenKind::Yadi => if !later(t, p, p1, true) {
                Err((stuck(t, p), p))
            } else {
                ternary_spec(t, p1)
            },
            TokenKind::Lambda => if !later(t, p, p1, true) {
                Err((stuck(t, p), p))
            } else {
                lambda_spec(t, p1)
            },
            TokenKind::LBracket => if !later(t, p, p1, true) {
                Err((stuck(t, p), p))
            } else if kd(t, p1) == TokenKind::RBracket {
                Ok((ExprM::List(seq![]), adv(t, p1)))
            } else {
                list_loop(t, p1, seq![], false)
            },
            TokenKind::LBrace => if !later(t, p, p1, true) {
                Err((stuck(t, p), p))
            } else if kd(t, p1) == TokenKind::RBrace {
                Ok((ExprM::Dict(seq![]), adv(t, p1)))
            } else {
                dict_loop(t, p1, seq![])
            },
            _ => Err(("अपेक्षित मान नहीं मिला "@ + line_note(t, p) + ", मिला: "@ + tok.shown@, p1)),
        }
    }
}

/// `cond तो a अन्यथा b`, after `यदि`.
pub open spec fn ternary_spec(t: Seq<Token>, p: int) -> PR<ExprM>
    decreases t.len() - p, 75int when tokens_wf(t) && 0 <= p < t.len()
{
    match expr_spec(t, p) {
        Err(e) => Err(e),
        Ok((c, q)) => match expect_spec(t, q, TokenKind::Toh) {
            Err(e) => Err(e),
            Ok(q1) => if !later(t, p, q1, true) {
                Err((stuck(t, p), p))
            } else {
                match expr_spec(t, q1) {
                    Err(e) => Err(e),
                    Ok((a, q2)) => match expect_spec(t, q2, TokenKind::Anyatha) {
                        Err(e) => Err(e),
                        Ok(q3) => if !later(t, q1, q3, true) {
                            Err((stuck(t, p), p))
                        } else {
                            match expr_spec(t, q3) {
                                Err(e) => Err(e),
                                Ok((b, q4)) => Ok((ExprM::Ternary(Box::new(c), Box::new(a), Box::new(b)), q4)),
                            }
                        },
                    },
                }
            },
        },
    }
}

/// Lambda parameters up to `)`: names, a `*name` last.
pub open spec fn lam_params(t: Seq<Token>, p: int, names: Seq<Seq<char>>) -> PR<(Seq<Seq<char>>, Option<Seq<char>>)>
    decreases t.len() - p,
{
    if !(0 <= p < t.len()) {
        Err((seq![], p))
    } else if kd(t, p) == TokenKind::Star {
        match ident_spec(t, adv(t, p)) {
            Err(e) => Err(e),
            Ok((v, q)) => Ok(((names, Some(v)), q)),
        }
    } else {
        match ident_spec(t, p) {
            Err(e) => Err(e),
            Ok((n, q)) => if kd(t, q) == TokenKind::Comma && p < q {
                lam_params(t, adv(t, q), names.push(n))
            } else {
                Ok(((names.push(n), None), q))
            },
        }
    }
}

/// `(params): body` after `लाम्डा`: the body is a block when a line break
/// follows the `:`, else one expression (as `फल expr`).
pub open spec fn lambda_spec(t: Seq<Token>, p: int) -> PR<ExprM>
    decreases t.len() - p, 76int when tokens_wf(t) && 0 <= p < t.len()
{
    match expect_spec(t, p, TokenKind::LParen) {
        Err(e) => Err(e),
        Ok(p1) => {
            let ps = if kd(t, p1) == TokenKind::RParen {
                Ok(((seq![], None), p1))
            } else {
                lam_params(t, p1, seq![])
            };
            match ps {
                Err(e) => Err(e),
                Ok(((names, va), q)) => match expect_spec(t, q, TokenKind::RParen) {
                    Err(e) => Err(e),
                    Ok(q1) => match expect_spec(t, q1, TokenKind::Colon) {
                        Err(e) => Err(e),
                        Ok(q2) => if !later(t, p, q2, true) {
                            Err((stuck(t, p), p))
                        } else {
                            lambda_tail(t, q2, names, va)
                        },
                    },
                },
            }
        },
    }
}

/// A lambda's body after its `:`: a block when a line break follows, else
/// one expression (as `फल expr`).
pub open spec fn lambda_tail(t: Seq<Token>, p: int, names: Seq<Seq<char>>, va: Option<Seq<char>>) -> PR<ExprM>
    decreases t.len() - p, 96int when tokens_wf(t) && 0 <= p < t.len()
{
    if kd(t, p) == TokenKind::Newline || kd(t, p) == TokenKind::Eof {
        proof {
            lemma_skip_nl(t, p);
        }
        match block_spec(t, skip_nl(t, p)) {
            Err(e) => Err(e),
            Ok((b, q3)) => Ok((ExprM::Lambda(names, va, b), q3)),
        }
    } else {
        match expr_spec(t, p) {
            Err(e) => Err(e),
            Ok((x, q3)) => Ok((ExprM::Lambda(names, va, seq![StmtM::Fal(x)]), q3)),
        }
    }
}

/// The values of list elements, dropping the spread flags.
pub open spec fn elem_values(v: Seq<(bool, ExprM)>) -> Seq<ExprM> {
    v.map_values(|x: (bool, ExprM)| x.1)
}

/// List elements from `p` (each may start with `*`), then `]`; the first
/// element followed by `के लिए` starts a comprehension.
pub open spec fn list_loop(t: Seq<Token>, p: int, elems: Seq<(bool, ExprM)>, spread: bool) -> PR<ExprM>
    decreases t.len() - p, 70int when tokens_wf(t) && 0 <= p < t.len()
{
    let sp = kd(t, p) == TokenKind::Star;
    let p1 = if sp { adv(t, p) } else { p };
    match expr_spec(t, p1) {
        Err(e) => Err(e),
        Ok((x, q)) => if !later(t, p, q, false) {
            Err((stuck(t, p), p))
        } else if elems.len() == 0 && !sp && kd(t, q) == TokenKind::KeeLiye {
            comp_loop(t, q, x, seq![])
        } else {
            let el = elems.push((sp, x));
            let sp2 = spread || sp;
            if kd(t, q) == TokenKind::Comma {
                let q1 = adv(t, q);
                if !later(t, p, q1, true) {
                    Err((stuck(t, p), p))
                } else {
                    list_loop(t, q1, el, sp2)
                }
            } else {
                match expect_spec(t, q, TokenKind::RBracket) {
                    Err(e) => Err(e),
                    Ok(q2) => Ok((if sp2 { ExprM::ListWithSpread(el) } else { ExprM::List(elem_values(el)) }, q2)),
                }
            }
        },
    }
}

/// Comprehension clauses `के लिए var iter में`, an optional `यदि cond`, `]`.
pub open spec fn comp_loop(t: Seq<Token>, p: int, x: ExprM, cl: Seq<(Seq<char>, ExprM)>) -> PR<ExprM>
    decreases t.len() - p, 20int when tokens_wf(t) && 0 <= p < t.len()
{
    if kd(t, p) == TokenKind::KeeLiye {
        match ident_spec(t, adv(t, p)) {
            Err(e) => Err(e),
            Ok((v, q)) => if !later(t, p, q, true) {
                Err((stuck(t, p), p))
            } else {
                match expr_spec(t, q) {
                    Err(e) => Err(e),
                    Ok((it, q1)) => match expect_spec(t, q1, TokenKind::Mein) {
                        Err(e) => Err(e),
                        Ok(q2) => if !later(t, p, q2, true) {
                            Err((stuck(t, p), p))
                        } else {
                            comp_loop(t, q2, x, cl.push((v, it)))
                        },
                    },
                }
            },
        }
    } else {
        let c = if kd(t, p) == TokenKind::Yadi {
            let p1 = adv(t, p);
            if !later(t, p, p1, true) {
                Err((stuck(t, p), p))
            } else {
                match expr_spec(t, p1) {
                    Err(e) => Err(e),
                    Ok((c, q)) => Ok((Some(Box::new(c)), q)),
                }
            }
        } else {
            Ok((None, p))
        };
        match c {
            Err(e) => Err(e),
            Ok((cond, q)) => match expect_spec(t, q, TokenKind::RBracket) {
                Err(e) => Err(e),
                Ok(q2) => Ok((ExprM::Comprehension(Box::new(x), cl, cond), q2)),
            },
        }
    }
}

/// `key: value` pairs from `p`, then `}`.
pub open spec fn dict_loop(t: Seq<Token>, p: int, pairs: Seq<(ExprM, ExprM)>) -> PR<ExprM>
    decreases t.len() - p, 73int when tokens_wf(t) && 0 <= p < t.len()
{
    match expr_spec(t, p) {
        Err(e) => Err(e),
        Ok((k, q)) => match expect_spec(t, q, TokenKind::Colon) {
            Err(e) => Err(e),
            Ok(q1) => if !later(t, p, q1, true) {
                Err((stuck(t, p), p))
            } else {
                match expr_spec(t, q1) {
                    Err(e) => Err(e),
                    Ok((v, q2)) => if !later(t, q1, q2, false) {
                        Err((stuck(t, p), p))
                    } else if kd(t, q2) == TokenKind::Comma {
                        let q3 = adv(t, q2);
                        if !later(t, q2, q3, true) {
                            Err((stuck(t, p), p))
                        } else {
                            dict_loop(t, q3, pairs.push((k, v)))
                        }
                    } else {
                        match expect_spec(t, q2, TokenKind::RBrace) {
                            Err(e) => Err(e),
                            Ok(q3) => Ok((ExprM::Dict(pairs.push((k, v))), q3)),
                        }
                    },
                }
            },
        },
    }
}


// ── Statements ────────────────────────────────────────────────────────────────

/// `(line N)` with N the given line.
pub open spec fn line_of(l: usize) -> Seq<char> {
    "(line "@ + decimal_spec(l as nat) + ")"@
}

/// A statement, marked with the line of its first token.
pub open spec fn stmt_spec(t: Seq<Token>, p: int) -> PR<StmtM>
    decreases t.len() - p, 90int when tokens_wf(t) && 0 <= p < t.len()
{
    match inner_spec(t, p) {
        Err(e) => Err(e),
        Ok((s, q)) => Ok((StmtM::Located(at(t, p).line as nat, Box::new(s)), q)),
    }
}

/// `: ` then a block, from `p`.
pub open spec fn body_spec(t: Seq<Token>, p: int) -> PR<Seq<StmtM>>
    decreases t.len() - p, 10int when tokens_wf(t) && 0 <= p < t.len()
{
    match expect_spec(t, p, TokenKind::Colon) {
        Err(e) => Err(e),
        Ok(q) => if !later(t, p, q, true) {
            Err((stuck(t, p), p))
        } else {
            proof {
                lemma_skip_nl(t, q);
            }
            block_spec(t, skip_nl(t, q))
        },
    }
}

/// A block: an indented run of statements up to its `DEDENT` (or the end),
/// or a single statement.
pub open spec fn block_spec(t: Seq<Token>, p: int) -> PR<Seq<StmtM>>
    decreases t.len() - p, 95int when tokens_wf(t) && 0 <= p < t.len()
{
    if kd(t, p) == TokenKind::Indent {
        let p1 = adv(t, p);
        if !later(t, p, p1, true) {
            Err((stuck(t, p), p))
        } else {
            proof {
                lemma_skip_nl(t, p1);
            }
            block_loop(t, skip_nl(t, p1), seq![])
        }
    } else {
        match stmt_spec(t, p) {
            Err(e) => Err(e),
            Ok((s, q)) => Ok((seq![s], q)),
        }
    }
}

pub open spec fn block_loop(t: Seq<Token>, p: int, acc: Seq<StmtM>) -> PR<Seq<StmtM>>
    decreases t.len() - p, 94int when tokens_wf(t) && 0 <= p < t.len()
{
    if kd(t, p) == TokenKind::Eof {
        Ok((acc, p))
    } else if kd(t, p) == TokenKind::Dedent {
        Ok((acc, adv(t, p)))
    } else {
        match stmt_spec(t, p) {
            Err(e) => Err(e),
            Ok((s, q)) => if !later(t, p, q, true) {
                Err((stuck(t, p), q))
            } else {
                proof {
                    lemma_skip_nl(t, q);
                }
                block_loop(t, skip_nl(t, q), acc.push(s))
            },
        }
    }
}

/// The statement at `p`, by its first token.
pub open spec fn inner_spec(t: Seq<Token>, p: int) -> PR<StmtM>
    decreases t.len() - p, 89int when tokens_wf(t) && 0 <= p < t.len()
{
    let k = kd(t, p);
    let p1 = adv(t, p);
    if k == TokenKind::Number && kd(t, p1) == TokenKind::BarKaro {
        bar_karo_spec(t, p)
    } else if k == TokenKind::Ident {
        ident_lead_spec(t, p)
    } else if k == TokenKind::Eof || k == TokenKind::Newline || k == TokenKind::Indent || k == TokenKind::Dedent
        || !(k == TokenKind::Batao || k == TokenKind::Yadi || k == TokenKind::Vidhi || k == TokenKind::Fal
        || k == TokenKind::Utpann || k == TokenKind::Aayat || k == TokenKind::Varg || k == TokenKind::Sar
        || k == TokenKind::Sajha || k == TokenKind::JabTak || k == TokenKind::BandKaro || k == TokenKind::Agla
        || k == TokenKind::Likho || k == TokenKind::Koshish || k == TokenKind::Phenko || k == TokenKind::Vaishvik
        || k == TokenKind::Vikalp || k == TokenKind::Milao || k == TokenKind::Jancho || k == TokenKind::Sthir
        || k == TokenKind::Shuddha || k == TokenKind::At || k == TokenKind::Parikshan || k == TokenKind::Saath
        || k == TokenKind::Abhilekh) {
        match expr_spec(t, p) {
            Err(e) => Err(e),
            Ok((x, qe)) => Ok((StmtM::ExprStmt(x), qe)),
        }
    } else if k == TokenKind::Varg || k == TokenKind::Sar {
        varg_spec(t, p)
    } else if k == TokenKind::At {
        decorated_spec(t, p)
    } else if k == TokenKind::Shuddha {
        shuddha_spec(t, p)
    } else if k == TokenKind::Parikshan {
        parikshan_spec(t, p)
    } else if !later(t, p, p1, true) {
        Err((stuck(t, p), p))
    } else {
        keyword_stmt(t, p1, k)
    }
}

/// A statement whose keyword `k` was taken; `p` is after it.
pub open spec fn keyword_stmt(t: Seq<Token>, p: int, k: TokenKind) -> PR<StmtM>
    decreases t.len() - p, 88int when tokens_wf(t) && 0 <= p < t.len()
{
    match k {
        TokenKind::Batao => match expr_spec(t, p) {
            Err(e) => Err(e),
            Ok((x, qe)) => Ok((StmtM::Print(x), qe)),
        },
        TokenKind::Fal => match expr_spec(t, p) {
            Err(e) => Err(e),
            Ok((x, qe)) => Ok((StmtM::Fal(x), qe)),
        },
        TokenKind::Utpann => match expr_spec(t, p) {
            Err(e) => Err(e),
            Ok((x, qe)) => Ok((StmtM::Yield(x), qe)),
        },
        TokenKind::Likho => match expr_spec(t, p) {
            Err(e) => Err(e),
            Ok((x, qe)) => Ok((StmtM::Likho(x), qe)),
        },
        TokenKind::Phenko => match expr_spec(t, p) {
            Err(e) => Err(e),
            Ok((x, qe)) => Ok((StmtM::Phenko(x), qe)),
        },
        TokenKind::BandKaro => Ok((StmtM::BandKaro, p)),
        TokenKind::Agla => Ok((StmtM::Agla, p)),
        TokenKind::Yadi => yadi_spec(t, p),
        TokenKind::Vidhi => func_spec(t, p, false, false),
        TokenKind::Sajha => match expect_spec(t, p, TokenKind::Vidhi) {
            Err(e) => Err(e),
            Ok(q) => if !later(t, p, q, true) {
                Err((stuck(t, p), p))
            } else {
                func_spec(t, q, false, true)
            },
        },
        TokenKind::JabTak => match expr_spec(t, p) {
            Err(e) => Err(e),
            Ok((c, q)) => if !later(t, p, q, false) {
                Err((stuck(t, p), p))
            } else {
                match body_spec(t, q) {
                    Err(e) => Err(e),
                    Ok((b, q2)) => Ok((StmtM::JabTak(c, b), q2)),
                }
            },
        },
        TokenKind::Jancho => match expr_spec(t, p) {
            Err(e) => Err(e),
            Ok((x, q)) => if !later(t, p, q, false) {
                Err((stuck(t, p), p))
            } else if kd(t, q) == TokenKind::Comma {
                let q1 = adv(t, q);
                if !later(t, q, q1, true) {
                    Err((stuck(t, p), p))
                } else {
                    match expr_spec(t, q1) {
                        Err(e) => Err(e),
                        Ok((m, q2)) => Ok((StmtM::Jancho(x, Some(m)), q2)),
                    }
                }
            } else {
                Ok((StmtM::Jancho(x, None), q))
            },
        },
        TokenKind::Sthir => match ident_spec(t, p) {
            Err(e) => Err(e),
            Ok((n, q)) => match expect_spec(t, q, TokenKind::Hai) {
                Err(e) => Err(e),
                Ok(q1) => if !later(t, p, q1, true) {
                    Err((stuck(t, p), p))
                } else {
                    match expr_spec(t, q1) {
                        Err(e) => Err(e),
                        Ok((v, q2)) => Ok((StmtM::SthirDecl(n, v), q2)),
                    }
                },
            },
        },
        TokenKind::Saath => match expr_spec(t, p) {
            Err(e) => Err(e),
            Ok((x, q)) => match expect_spec(t, q, TokenKind::KeRupMein) {
                Err(e) => Err(e),
                Ok(q1) => match ident_spec(t, q1) {
                    Err(e) => Err(e),
                    Ok((v, q2)) => if !later(t, p, q2, true) {
                        Err((stuck(t, p), p))
                    } else {
                        match body_spec(t, q2) {
                            Err(e) => Err(e),
                            Ok((b, q3)) => Ok((StmtM::Saath(x, v, b), q3)),
                        }
                    },
                },
            },
        },
        TokenKind::Koshish => koshish_spec(t, p),
        TokenKind::Vaishvik => match ident_spec(t, p) {
            Err(e) => Err(e),
            Ok((n, q)) => names_loop(t, q, seq![n]),
        },
        TokenKind::Vikalp => vikalp_spec(t, p),
        TokenKind::Milao => milao_spec(t, p),
        TokenKind::Aayat => aayat_spec(t, p),
        TokenKind::Abhilekh => abhilekh_spec(t, p),
        _ => Err((stuck(t, p), p)),
    }
}

/// `, name` repeated (for `वैश्विक`).
pub open spec fn names_loop(t: Seq<Token>, p: int, names: Seq<Seq<char>>) -> PR<StmtM>
    decreases t.len() - p,
{
    if 0 <= p < t.len() - 1 && kd(t, p) == TokenKind::Comma {
        match ident_spec(t, p + 1) {
            Err(e) => Err(e),
            Ok((n, q)) => if q <= p {
                Err((seq![], q))
            } else {
                names_loop(t, q, names.push(n))
            },
        }
    } else {
        Ok((StmtM::Global(names), p))
    }
}

/// `यदि cond: block [अन्यथा: block | अन्यथा यदि ...]`, after `यदि`.
pub open spec fn yadi_spec(t: Seq<Token>, p: int) -> PR<StmtM>
    decreases t.len() - p, 87int when tokens_wf(t) && 0 <= p < t.len()
{
    match expr_spec(t, p) {
        Err(e) => Err(e),
        Ok((c, q)) => if !later(t, p, q, false) {
            Err((stuck(t, p), p))
        } else {
            match body_spec(t, q) {
                Err(e) => Err(e),
                Ok((b, q1)) => if !later(t, q, q1, true) {
                    Err((stuck(t, p), p))
                } else if kd(t, q1) == TokenKind::Anyatha {
                    let q2 = adv(t, q1);
                    if !later(t, q1, q2, true) {
                        Err((stuck(t, p), p))
                    } else if kd(t, q2) == TokenKind::Yadi {
                        let q3 = adv(t, q2);
                        if !later(t, q2, q3, true) {
                            Err((stuck(t, p), p))
                        } else {
                            match yadi_spec(t, q3) {
                                Err(e) => Err(e),
                                Ok((s, q4)) => Ok((StmtM::Yadi(c, b, Some(seq![s])), q4)),
                            }
                        }
                    } else {
                        match body_spec(t, q2) {
                            Err(e) => Err(e),
                            Ok((o, q4)) => Ok((StmtM::Yadi(c, b, Some(o)), q4)),
                        }
                    }
                } else {
                    Ok((StmtM::Yadi(c, b, None), q1))
                },
            }
        },
    }
}

/// `count बार करो: block`.
pub open spec fn bar_karo_spec(t: Seq<Token>, p: int) -> PR<StmtM>
    decreases t.len() - p, 80int when tokens_wf(t) && 0 <= p < t.len()
{
    match expr_spec(t, p) {
        Err(e) => Err(e),
        Ok((c, q)) => match expect_spec(t, q, TokenKind::BarKaro) {
            Err(e) => Err(e),
            Ok(q1) => if !later(t, p, q1, true) {
                Err((stuck(t, p), p))
            } else {
                match body_spec(t, q1) {
                    Err(e) => Err(e),
                    Ok((b, q2)) => Ok((StmtM::BarKaro(c, b), q2)),
                }
            },
        },
    }
}

/// A function definition after its `विधि`: `name(params) [-> type]: block`.
pub open spec fn func_spec(t: Seq<Token>, p: int, pure: bool, is_static: bool) -> PR<StmtM>
    decreases t.len() - p, 86int when tokens_wf(t) && 0 <= p < t.len()
{
    match ident_spec(t, p) {
        Err(e) => Err(e),
        Ok((name, q)) => match expect_spec(t, q, TokenKind::LParen) {
            Err(e) => Err(e),
            Ok(q1) => if !later(t, p, q1, true) {
                Err((stuck(t, p), p))
            } else {
                match params_spec(t, q1) {
                    Err(e) => Err(e),
                    Ok(((ps, va), q2)) => match expect_spec(t, q2, TokenKind::RParen) {
                        Err(e) => Err(e),
                        Ok(q3) => match opt_type_spec(t, q3, true) {
                            Err(e) => Err(e),
                            Ok((rt, q4)) => if !later(t, q1, q4, true) {
                                Err((stuck(t, p), p))
                            } else {
                                match body_spec(t, q4) {
                                    Err(e) => Err(e),
                                    Ok((b, q5)) => Ok((
                                        StmtM::Vidhi {
                                            name,
                                            params: ps,
                                            body: b,
                                            vararg: va,
                                            pure,
                                            decorators: seq![],
                                            is_static,
                                            ret_type: rt,
                                        },
                                        q5,
                                    )),
                                }
                            },
                        },
                    },
                }
            },
        },
    }
}

/// Whether some parameter has a default.
pub open spec fn any_default(ps: Seq<ParamM>) -> bool {
    exists|i: int| 0 <= i < ps.len() && #[trigger] ps[i].default is Some
}

/// Parameters up to `)`: `name [kāraka][: type][=default]`, a `*name` last;
/// after a parameter with a default every parameter needs one.
pub open spec fn params_spec(t: Seq<Token>, p: int) -> PR<(Seq<ParamM>, Option<Seq<char>>)>
    decreases t.len() - p,
{
    if 0 <= p < t.len() && kd(t, p) == TokenKind::RParen {
        Ok(((seq![], None), p))
    } else {
        params_loop(t, p, seq![])
    }
}

pub open spec fn params_loop(t: Seq<Token>, p: int, ps: Seq<ParamM>) -> PR<(Seq<ParamM>, Option<Seq<char>>)>
    decreases t.len() - p,
{
    if !(0 <= p < t.len()) {
        Err((seq![], p))
    } else if kd(t, p) == TokenKind::Star {
        match ident_spec(t, adv(t, p)) {
            Err(e) => Err(e),
            Ok((v, q)) => Ok(((ps, Some(v)), q)),
        }
    } else {
        match ident_spec(t, p) {
            Err(e) => Err(e),
            Ok((name, q)) => {
                let (ka, q1) = karaka_spec(t, q);
                match opt_type_spec(t, q1, false) {
                    Err(e) => Err(e),
                    Ok((th, q2)) => {
                        let d = if kd(t, q2) == TokenKind::Assign {
                            match default_spec(t, adv(t, q2)) {
                                Err(e) => Err(e),
                                Ok((x, q3)) => Ok((Some(x), q3)),
                            }
                        } else if any_default(ps) {
                            Err((
                                "डिफ़ॉल्ट मान वाले पैरामीटर के बाद '"@ + name
                                    + "' का भी डिफ़ॉल्ट मान होना चाहिए "@ + line_note(t, q2),
                                q2,
                            ))
                        } else {
                            Ok((None, q2))
                        };
                        match d {
                            Err(e) => Err(e),
                            Ok((df, q3)) => {
                                let ps2 = ps.push(ParamM { name, karaka: ka, default: df, type_hint: th });
                                if 0 <= q3 < t.len() && kd(t, q3) == TokenKind::Comma && p < q3 {
                                    params_loop(t, adv(t, q3), ps2)
                                } else {
                                    Ok(((ps2, None), q3))
                                }
                            },
                        }
                    },
                }
            },
        }
    }
}

/// `[सार] वर्ग Name[(Parent)]: block`.
pub open spec fn varg_spec(t: Seq<Token>, p: int) -> PR<StmtM>
    decreases t.len() - p, 84int when tokens_wf(t) && 0 <= p < t.len()
{
    let abs = kd(t, p) == TokenKind::Sar;
    let p0 = if abs { adv(t, p) } else { p };
    match expect_spec(t, p0, TokenKind::Varg) {
        Err(e) => Err(e),
        Ok(q) => match ident_spec(t, q) {
            Err(e) => Err(e),
            Ok((name, q1)) => {
                let par = if kd(t, q1) == TokenKind::LParen {
                    match ident_spec(t, adv(t, q1)) {
                        Err(e) => Err(e),
                        Ok((pn, q2)) => match expect_spec(t, q2, TokenKind::RParen) {
                            Err(e) => Err(e),
                            Ok(q3) => Ok((Some(pn), q3)),
                        },
                    }
                } else {
                    Ok((None, q1))
                };
                match par {
                    Err(e) => Err(e),
                    Ok((parent, q2)) => if !later(t, p, q2, true) {
                        Err((stuck(t, p), p))
                    } else {
                        match body_spec(t, q2) {
                            Err(e) => Err(e),
                            Ok((b, q3)) => Ok((StmtM::Varg(name, parent, b, abs), q3)),
                        }
                    },
                }
            },
        },
    }
}

/// `कोशिश: block`, then one or more `पकड़ो` clauses.
pub open spec fn koshish_spec(t: Seq<Token>, p: int) -> PR<StmtM>
    decreases t.len() - p, 85int when tokens_wf(t) && 0 <= p < t.len()
{
    match body_spec(t, p) {
        Err(e) => Err(e),
        Ok((b, q)) => {
            let q1 = skip_nl(t, q);
            if kd(t, q1) != TokenKind::Pakdo {
                Err(("कोशिश के बाद 'पकड़ो' अपेक्षित "@ + line_note(t, q1), q1))
            } else if !later(t, p, q1, true) {
                Err((stuck(t, p), p))
            } else {
                catch_loop(t, q1, b, seq![])
            }
        },
    }
}

/// `पकड़ो [Class] name: block` clauses; `पकड़ो त्रुटि name` catches all.
pub open spec fn catch_loop(t: Seq<Token>, p: int, body: Seq<StmtM>, cl: Seq<CatchM>) -> PR<StmtM>
    decreases t.len() - p, 84int when tokens_wf(t) && 0 <= p < t.len()
{
    if kd(t, p) != TokenKind::Pakdo {
        Ok((StmtM::TryCatch(body, cl), p))
    } else {
        match ident_spec(t, adv(t, p)) {
            Err(e) => Err(e),
            Ok((first, q)) => {
                let cv = if kd(t, q) == TokenKind::Colon {
                    Ok(((None, first), q))
                } else {
                    match ident_spec(t, q) {
                        Err(e) => Err(e),
                        Ok((second, q1)) => Ok((
                            if first == "त्रुटि"@ { (None, second) } else { (Some(first), second) },
                            q1,
                        )),
                    }
                };
                match cv {
                    Err(e) => Err(e),
                    Ok(((class, var), q1)) => if !later(t, p, q1, true) {
                        Err((stuck(t, p), p))
                    } else {
                        match body_spec(t, q1) {
                            Err(e) => Err(e),
                            Ok((h, q2)) => if !later(t, q1, q2, true) {
                                Err((stuck(t, p), p))
                            } else {
                                proof {
                                    lemma_skip_nl(t, q2);
                                }
                                catch_loop(t, skip_nl(t, q2), body, cl.push(CatchM { class, var, body: h }))
                            },
                        }
                    },
                }
            },
        }
    }
}

/// Names up to `)` for a variant's fields or an arm's bindings: each name,
/// with an optional `,` after it.
pub open spec fn field_names(t: Seq<Token>, p: int, acc: Seq<Seq<char>>) -> PR<Seq<Seq<char>>>
    decreases t.len() - p,
{
    if !(0 <= p < t.len()) {
        Err((seq![], p))
    } else if kd(t, p) == TokenKind::RParen || kd(t, p) == TokenKind::Eof {
        match expect_spec(t, p, TokenKind::RParen) {
            Err(e) => Err(e),
            Ok(q) => Ok((acc, q)),
        }
    } else {
        match ident_spec(t, p) {
            Err(e) => Err(e),
            Ok((n, q)) => {
                let q1 = if kd(t, q) == TokenKind::Comma { adv(t, q) } else { q };
                if q1 <= p {
                    Err((seq![], q1))
                } else {
                    field_names(t, q1, acc.push(n))
                }
            },
        }
    }
}

/// Optional `(names)` after a variant name.
pub open spec fn opt_names(t: Seq<Token>, p: int) -> PR<Seq<Seq<char>>> {
    if kd(t, p) == TokenKind::LParen {
        field_names(t, adv(t, p), seq![])
    } else {
        Ok((seq![], p))
    }
}

/// `विकल्प Name:` and an indented list of variants `Name[(fields)]`.
pub open spec fn vikalp_spec(t: Seq<Token>, p: int) -> PR<StmtM>
    decreases t.len() - p, 84int when tokens_wf(t) && 0 <= p < t.len()
{
    match ident_spec(t, p) {
        Err(e) => Err(e),
        Ok((name, q)) => match expect_spec(t, q, TokenKind::Colon) {
            Err(e) => Err(e),
            Ok(q1) => {
                let q2 = skip_nl(t, q1);
                if kd(t, q2) == TokenKind::Indent {
                    variant_loop(t, skip_nl(t, adv(t, q2)), name, seq![])
                } else {
                    Ok((StmtM::ViKalp(name, seq![]), q2))
                }
            },
        },
    }
}

pub open spec fn variant_loop(t: Seq<Token>, p: int, name: Seq<char>, vs: Seq<VariantM>) -> PR<StmtM>
    decreases t.len() - p,
{
    if !(0 <= p < t.len()) {
        Err((seq![], p))
    } else if kd(t, p) == TokenKind::Eof {
        Ok((StmtM::ViKalp(name, vs), p))
    } else if kd(t, p) == TokenKind::Dedent {
        Ok((StmtM::ViKalp(name, vs), adv(t, p)))
    } else {
        match ident_spec(t, p) {
            Err(e) => Err(e),
            Ok((vn, q)) => match opt_names(t, q) {
                Err(e) => Err(e),
                Ok((fs, q1)) => {
                    let q2 = skip_nl(t, q1);
                    if q2 <= p || q2 >= t.len() {
                        Err((seq![], q2))
                    } else {
                        variant_loop(t, q2, name, vs.push(VariantM { name: vn, fields: fs }))
                    }
                },
            },
        }
    }
}

/// `मिलाओ subject:` and an indented list of arms
/// `Variant[(binds)] [यदि guard]: block` or `अन्यथा: block`.
pub open spec fn milao_spec(t: Seq<Token>, p: int) -> PR<StmtM>
    decreases t.len() - p, 84int when tokens_wf(t) && 0 <= p < t.len()
{
    match expr_spec(t, p) {
        Err(e) => Err(e),
        Ok((subj, q)) => match expect_spec(t, q, TokenKind::Colon) {
            Err(e) => Err(e),
            Ok(q1) => {
                let q2 = skip_nl(t, q1);
                if kd(t, q2) == TokenKind::Indent && later(t, p, q2, true) {
                    proof {
                        lemma_skip_nl(t, adv(t, q2));
                    }
                    arm_loop(t, skip_nl(t, adv(t, q2)), subj, seq![])
                } else if kd(t, q2) == TokenKind::Indent {
                    Err((stuck(t, p), p))
                } else {
                    Ok((StmtM::Milao(subj, seq![]), q2))
                }
            },
        },
    }
}

pub open spec fn arm_loop(t: Seq<Token>, p: int, subj: ExprM, arms: Seq<ArmM>) -> PR<StmtM>
    decreases t.len() - p, 83int when tokens_wf(t) && 0 <= p < t.len()
{
    if kd(t, p) == TokenKind::Eof {
        Ok((StmtM::Milao(subj, arms), p))
    } else if kd(t, p) == TokenKind::Dedent {
        Ok((StmtM::Milao(subj, arms), adv(t, p)))
    } else {
        let pat = if kd(t, p) == TokenKind::Anyatha {
            Ok((PatternM::Wildcard, adv(t, p)))
        } else {
            match ident_spec(t, p) {
                Err(e) => Err(e),
                Ok((vn, q)) => match opt_names(t, q) {
                    Err(e) => Err(e),
                    Ok((bs, q1)) => Ok((PatternM::Variant(vn, bs), q1)),
                },
            }
        };
        match pat {
            Err(e) => Err(e),
            Ok((pt, q)) => if !later(t, p, q, true) {
                Err((stuck(t, p), p))
            } else {
                let g = if kd(t, q) == TokenKind::Yadi {
                    let q0 = adv(t, q);
                    if !later(t, q, q0, true) {
                        Err((stuck(t, p), p))
                    } else {
                        match expr_spec(t, q0) {
                            Err(e) => Err(e),
                            Ok((x, q1)) => Ok((Some(x), q1)),
                        }
                    }
                } else {
                    Ok((None, q))
                };
                match g {
                    Err(e) => Err(e),
                    Ok((guard, q1)) => if !later(t, q, q1, false) {
                        Err((stuck(t, p), p))
                    } else {
                        match body_spec(t, q1) {
                            Err(e) => Err(e),
                            Ok((b, q2)) => if !later(t, q1, q2, true) {
                                Err((stuck(t, p), p))
                            } else {
                                proof {
                                    lemma_skip_nl(t, q2);
                                }
                                arm_loop(t, skip_nl(t, q2), subj, arms.push(ArmM { pattern: pt, guard, body: b }))
                            },
                        }
                    },
                }
            },
        }
    }
}

/// `आयात "file" [के_रूप_में alias]` or `आयात prefix.module`, after `आयात`.
pub open spec fn aayat_spec(t: Seq<Token>, p: int) -> PR<StmtM> {
    if kd(t, p) == TokenKind::Str {
        let path = at(t, p).text@;
        let q = adv(t, p);
        if kd(t, q) == TokenKind::KeRupMein {
            match ident_spec(t, adv(t, q)) {
                Err(e) => Err(e),
                Ok((a, q1)) => Ok((StmtM::AayatFileAs(path, a), q1)),
            }
        } else {
            Ok((StmtM::AayatFile(path), q))
        }
    } else {
        match ident_spec(t, p) {
            Err(e) => Err(e),
            Ok((pre, q)) => match expect_spec(t, q, TokenKind::Dot) {
                Err(e) => Err(e),
                Ok(q1) => match ident_spec(t, q1) {
                    Err(e) => Err(e),
                    Ok((m, q2)) => Ok((StmtM::Aayat(pre + "."@ + m), q2)),
                },
            },
        }
    }
}

/// Field names up to `)` of a record: `a, b, c`.
pub open spec fn record_fields(t: Seq<Token>, p: int, acc: Seq<Seq<char>>) -> PR<Seq<Seq<char>>>
    decreases t.len() - p,
{
    if !(0 <= p < t.len()) {
        Err((seq![], p))
    } else {
        match ident_spec(t, p) {
            Err(e) => Err(e),
            Ok((n, q)) => if kd(t, q) == TokenKind::Comma && p < q {
                record_fields(t, adv(t, q), acc.push(n))
            } else {
                Ok((acc.push(n), q))
            },
        }
    }
}

/// The class a record stands for: a `बनाओ` that stores each field.
pub open spec fn record_model(name: Seq<char>, fs: Seq<Seq<char>>) -> StmtM {
    StmtM::Varg(
        name,
        None,
        seq![
            StmtM::Vidhi {
                name: "बनाओ"@,
                params: fs.map_values(|f: Seq<char>| ParamM { name: f, karaka: None, default: None, type_hint: None }),
                body: fs.map_values(|f: Seq<char>| StmtM::AttrAssign("यह"@, f, ExprM::Ident(f))),
                vararg: None,
                pure: false,
                decorators: seq![],
                is_static: false,
                ret_type: None,
            },
        ],
        false,
    )
}

/// `अभिलेख Name(fields)`, after `अभिलेख`.
pub open spec fn abhilekh_spec(t: Seq<Token>, p: int) -> PR<StmtM> {
    match ident_spec(t, p) {
        Err(e) => Err(e),
        Ok((name, q)) => match expect_spec(t, q, TokenKind::LParen) {
            Err(e) => Err(e),
            Ok(q1) => {
                let fr = if kd(t, q1) == TokenKind::RParen {
                    Ok((seq![], q1))
                } else {
                    record_fields(t, q1, seq![])
                };
                match fr {
                    Err(e) => Err(e),
                    Ok((fs, q2)) => match expect_spec(t, q2, TokenKind::RParen) {
                        Err(e) => Err(e),
                        Ok(q3) => Ok((record_model(name, fs), q3)),
                    },
                }
            },
        },
    }
}

/// `परीक्षण "name": block`.
pub open spec fn parikshan_spec(t: Seq<Token>, p: int) -> PR<StmtM>
    decreases t.len() - p, 84int when tokens_wf(t) && 0 <= p < t.len()
{
    let p1 = adv(t, p);
    if kd(t, p1) != TokenKind::Str {
        Err(("परीक्षण के बाद \"नाम\" (वाक्य) अपेक्षित "@ + line_note(t, p), p1))
    } else {
        let q = adv(t, p1);
        if !later(t, p, q, true) {
            Err((stuck(t, p), p))
        } else {
            match body_spec(t, q) {
                Err(e) => Err(e),
                Ok((b, q1)) => Ok((StmtM::Parikshan(at(t, p1).text@, b), q1)),
            }
        }
    }
}

/// `शुद्ध विधि ...`.
pub open spec fn shuddha_spec(t: Seq<Token>, p: int) -> PR<StmtM>
    decreases t.len() - p, 82int when tokens_wf(t) && 0 <= p < t.len()
{
    let p1 = adv(t, p);
    if kd(t, p1) != TokenKind::Vidhi {
        Err(("'शुद्ध' के बाद 'विधि' अपेक्षित "@ + line_note(t, p1), p1))
    } else {
        let q = adv(t, p1);
        if !later(t, p, q, true) {
            Err((stuck(t, p), p))
        } else {
            func_spec(t, q, true, false)
        }
    }
}

/// `@name[(args)]` lines, then a `विधि` or `शुद्ध विधि` that gets them.
pub open spec fn decorated_spec(t: Seq<Token>, p: int) -> PR<StmtM>
    decreases t.len() - p, 84int when tokens_wf(t) && 0 <= p < t.len()
{
    deco_loop(t, p, seq![])
}

pub open spec fn deco_loop(t: Seq<Token>, p: int, ds: Seq<ExprM>) -> PR<StmtM>
    decreases t.len() - p, 83int when tokens_wf(t) && 0 <= p < t.len()
{
    if kd(t, p) == TokenKind::At {
        match ident_spec(t, adv(t, p)) {
            Err(e) => Err(e),
            Ok((dn, q)) => {
                let d = if kd(t, q) == TokenKind::LParen {
                    let q0 = adv(t, q);
                    if !later(t, q, q0, true) {
                        Err((stuck(t, p), p))
                    } else {
                        match call_args_spec(t, q0) {
                            Err(e) => Err(e),
                            Ok(((a, kw), q1)) => Ok((call_model(dn, a, kw), q1)),
                        }
                    }
                } else {
                    Ok((ExprM::Ident(dn), q))
                };
                match d {
                    Err(e) => Err(e),
                    Ok((deco, q1)) => if kd(t, q1) != TokenKind::Newline && kd(t, q1) != TokenKind::Eof {
                        Err(("सजावट '@' के बाद नई पंक्ति अपेक्षित "@ + line_note(t, p), q1))
                    } else if !later(t, p, q1, true) {
                        Err((stuck(t, p), p))
                    } else {
                        proof {
                            lemma_skip_nl(t, q1);
                        }
                        deco_loop(t, skip_nl(t, q1), ds.push(deco))
                    },
                }
            },
        }
    } else {
        let f = if kd(t, p) == TokenKind::Vidhi {
            let p1 = adv(t, p);
            if !later(t, p, p1, true) {
                Err((stuck(t, p), p))
            } else {
                func_spec(t, p1, false, false)
            }
        } else if kd(t, p) == TokenKind::Shuddha {
            shuddha_spec(t, p)
        } else {
            Err(("सजावट '@' के बाद 'विधि' अपेक्षित "@ + line_note(t, p), p))
        };
        match f {
            Err(e) => Err(e),
            Ok((s, q)) => Ok((
                match s {
                    StmtM::Vidhi { name, params, body, vararg, pure, decorators, is_static, ret_type } => StmtM::Vidhi {
                        name,
                        params,
                        body,
                        vararg,
                        pure,
                        decorators: ds,
                        is_static,
                        ret_type,
                    },
                    _ => s,
                },
                q,
            )),
        }
    }
}


/// `a है b है ...`: names each followed by `है`.
pub open spec fn chain_names(t: Seq<Token>, p: int, names: Seq<Seq<char>>) -> (Seq<Seq<char>>, int)
    decreases t.len() - p,
{
    if 0 <= p < t.len() - 2 && kd(t, p) == TokenKind::Ident && kd(t, p + 1) == TokenKind::Hai {
        chain_names(t, p + 2, names.push(at(t, p).text@))
    } else {
        (names, p)
    }
}

/// `, name` repeated (tuple unpacking targets).
pub open spec fn comma_names(t: Seq<Token>, p: int, names: Seq<Seq<char>>) -> PR<Seq<Seq<char>>>
    decreases t.len() - p,
{
    if 0 <= p < t.len() - 1 && kd(t, p) == TokenKind::Comma {
        match ident_spec(t, p + 1) {
            Err(e) => Err(e),
            Ok((n, q)) => if q <= p {
                Err((seq![], q))
            } else {
                comma_names(t, q, names.push(n))
            },
        }
    } else {
        Ok((names, p))
    }
}

/// `, value` repeated.
pub open spec fn comma_values(t: Seq<Token>, p: int, vals: Seq<ExprM>) -> PR<Seq<ExprM>>
    decreases t.len() - p, 81int when tokens_wf(t) && 0 <= p < t.len()
{
    if kd(t, p) == TokenKind::Comma {
        let p1 = adv(t, p);
        if !later(t, p, p1, true) {
            Err((stuck(t, p), p))
        } else {
            match expr_spec(t, p1) {
                Err(e) => Err(e),
                Ok((v, q)) => if !later(t, p1, q, false) {
                    Err((stuck(t, p), p))
                } else {
                    comma_values(t, q, vals.push(v))
                },
            }
        }
    } else {
        Ok((vals, p))
    }
}

/// `value` after `है` in an assignment, or a chain `b है c है value`.
pub open spec fn assign_spec(t: Seq<Token>, p: int, name: Seq<char>, ka: Option<Karaka>, th: Option<TypeModel>) -> PR<StmtM>
    decreases t.len() - p, 82int when tokens_wf(t) && 0 <= p < t.len()
{
    if kd(t, p) == TokenKind::Ident && kd(t, adv(t, p)) == TokenKind::Hai {
        let (names, q) = chain_names(t, p, seq![name]);
        if !later(t, p, q, false) {
            Err((stuck(t, p), p))
        } else {
            match expr_spec(t, q) {
            Err(e) => Err(e),
            Ok((x, qe)) => Ok((StmtM::ChainAssign(names, x), qe)),
        }
        }
    } else {
        match expr_spec(t, p) {
            Err(e) => Err(e),
            Ok((x, qe)) => Ok((StmtM::Assign(name, ka, th, x), qe)),
        }
    }
}

/// `a, b है x, y` after the first name.
pub open spec fn multi_spec(t: Seq<Token>, p: int, name: Seq<char>) -> PR<StmtM>
    decreases t.len() - p, 82int when tokens_wf(t) && 0 <= p < t.len()
{
    match comma_names(t, p, seq![name]) {
        Err(e) => Err(e),
        Ok((names, q)) => match expect_spec(t, q, TokenKind::Hai) {
            Err(e) => Err(e),
            Ok(q1) => if !later(t, p, q1, true) {
                Err((stuck(t, p), p))
            } else {
                match expr_spec(t, q1) {
                    Err(e) => Err(e),
                    Ok((v, q2)) => if !later(t, q1, q2, false) {
                        Err((stuck(t, p), p))
                    } else {
                        match comma_values(t, q2, seq![v]) {
                            Err(e) => Err(e),
                            Ok((vals, q3)) => if vals.len() != 1 && vals.len() != names.len() {
                                Err((
                                    "बाएँ "@ + decimal_spec(names.len()) + " नाम हैं पर दाएँ "@
                                        + decimal_spec(vals.len()) + " मान "@ + line_note(t, q),
                                    q3,
                                ))
                            } else {
                                Ok((StmtM::MultiAssign(names, vals), q3))
                            },
                        }
                    },
                }
            },
        },
    }
}

/// `name[...]` as a statement: an index or slice, assigned when `है` follows.
pub open spec fn index_stmt(t: Seq<Token>, p: int, name: Seq<char>) -> PR<StmtM>
    decreases t.len() - p, 82int when tokens_wf(t) && 0 <= p < t.len()
{
    match bracket_spec(t, p, ExprM::Ident(name)) {
        Err(e) => Err(e),
        Ok((x, q)) => if !later(t, p, q, false) {
            Err((stuck(t, p), p))
        } else if kd(t, q) == TokenKind::Hai {
            let q1 = adv(t, q);
            if !later(t, q, q1, true) {
                Err((stuck(t, p), p))
            } else {
                match x {
                    ExprM::Index(_, i) => match expr_spec(t, q1) {
            Err(e) => Err(e),
            Ok((v, qe)) => Ok((StmtM::IndexAssign(name, *i, v), qe)),
        },
                    ExprM::Slice(_, a, b, c) => match expr_spec(t, q1) {
            Err(e) => Err(e),
            Ok((v, qe)) => Ok((StmtM::SliceAssign(name, unbox(a), unbox(b), unbox(c), v), qe)),
        },
                    _ => Err((stuck(t, p), p)),
                }
            }
        } else {
            Ok((StmtM::ExprStmt(x), q))
        },
    }
}

pub open spec fn unbox(o: Option<Box<ExprM>>) -> Option<ExprM> {
    match o {
        Some(b) => Some(*b),
        None => None,
    }
}

/// `name.field है value`, `name.method(args)` or `name.field`.
pub open spec fn dot_stmt(t: Seq<Token>, p: int, name: Seq<char>) -> PR<StmtM>
    decreases t.len() - p, 82int when tokens_wf(t) && 0 <= p < t.len()
{
    match field_spec(t, p) {
        Err(e) => Err(e),
        Ok((f, q)) => if kd(t, q) == TokenKind::Hai {
            let q1 = adv(t, q);
            if !later(t, p, q1, true) {
                Err((stuck(t, p), p))
            } else {
                match expr_spec(t, q1) {
            Err(e) => Err(e),
            Ok((v, qe)) => Ok((StmtM::AttrAssign(name, f, v), qe)),
        }
            }
        } else {
            match member_spec(t, p, ExprM::Ident(name)) {
                Err(e) => Err(e),
                Ok((x, q1)) => Ok((StmtM::ExprStmt(x), q1)),
            }
        },
    }
}

/// A statement that starts with a name: assignments (`है`), a call, tuple
/// unpacking, `के लिए` loops, index, slice and field statements.
pub open spec fn ident_lead_spec(t: Seq<Token>, p: int) -> PR<StmtM>
    decreases t.len() - p, 85int when tokens_wf(t) && 0 <= p < t.len()
{
    match ident_spec(t, p) {
        Err(e) => Err(e),
        Ok((name, q)) => {
            let (ka, q1) = karaka_spec(t, q);
            match opt_type_spec(t, q1, false) {
                Err(e) => Err(e),
                Ok((th, q2)) => {
                    let k = kd(t, q2);
                    let q3 = adv(t, q2);
                    if !later(t, p, q2, true) {
                        Err((stuck(t, p), p))
                    } else if k == TokenKind::Comma {
                        multi_spec(t, q2, name)
                    } else if !(k == TokenKind::Hai || k == TokenKind::LParen || k == TokenKind::KeeLiye || k == TokenKind::LBracket
                        || k == TokenKind::Dot) {
                        Ok((StmtM::ExprStmt(ExprM::Ident(name)), q2))
                    } else if !later(t, q2, q3, true) {
                        Err((stuck(t, p), p))
                    } else if k == TokenKind::Hai {
                        assign_spec(t, q3, name, ka, th)
                    } else if k == TokenKind::LParen {
                        match call_args_spec(t, q3) {
                            Err(e) => Err(e),
                            Ok(((a, kw), q4)) => Ok((StmtM::ExprStmt(call_model(name, a, kw)), q4)),
                        }
                    } else if k == TokenKind::KeeLiye {
                        match expr_spec(t, q3) {
                            Err(e) => Err(e),
                            Ok((it, q4)) => match expect_spec(t, q4, TokenKind::Mein) {
                                Err(e) => Err(e),
                                Ok(q5) => if !later(t, q3, q5, true) {
                                    Err((stuck(t, p), p))
                                } else {
                                    match body_spec(t, q5) {
                                        Err(e) => Err(e),
                                        Ok((b, q6)) => Ok((StmtM::KeeLiye(name, it, b), q6)),
                                    }
                                },
                            },
                        }
                    } else if k == TokenKind::LBracket {
                        index_stmt(t, q3, name)
                    } else {
                        dot_stmt(t, q3, name)
                    }
                },
            }
        },
    }
}

// ── Programs ──────────────────────────────────────────────────────────────────

pub open spec fn prog_loop(t: Seq<Token>, p: int, acc: Seq<StmtM>) -> PR<Seq<StmtM>>
    decreases t.len() - p, 100int when tokens_wf(t) && 0 <= p < t.len()
{
    if kd(t, p) == TokenKind::Eof {
        Ok((acc, p))
    } else {
        match stmt_spec(t, p) {
            Err(e) => Err(e),
            Ok((s, q)) => if !later(t, p, q, true) {
                Err((stuck(t, p), q))
            } else {
                proof {
                    lemma_skip_nl(t, q);
                }
                prog_loop(t, skip_nl(t, q), acc.push(s))
            },
        }
    }
}

/// The program the tokens spell: its statements, or the first error.
pub open spec fn parse_spec(t: Seq<Token>) -> Result<Seq<StmtM>, Seq<char>> {
    match prog_loop(t, skip_nl(t, 0), seq![]) {
        Ok((v, _)) => Ok(v),
        Err((e, _)) => Err(e),
    }
}


// ── Reading tokens ────────────────────────────────────────────────────────────

/// Exec results: a value and the position after it, or a message and the
/// position reached.
pub type Parsed<A> = Result<(A, usize), (String, usize)>;

/// Positions of a result lie in the tokens, a value's at or after `p`.
pub open spec fn res_pos<A>(r: Parsed<A>, p: int, n: int) -> bool {
    match r {
        Ok((_, q)) => p <= q < n,
        Err((_, q)) => 0 <= q < n,
    }
}

pub open spec fn err_rel<A>(r: Parsed<A>, e: (Seq<char>, int)) -> bool {
    r matches Err((m, q)) && m@ == e.0 && q == e.1
}

pub open spec fn rel_name(r: Parsed<String>, s: PR<Seq<char>>) -> bool {
    match s {
        Ok((m, q)) => r matches Ok((x, q2)) && x@ == m && q2 == q,
        Err(e) => err_rel(r, e),
    }
}

pub open spec fn rel_expr(r: Parsed<Expr>, s: PR<ExprM>) -> bool {
    match s {
        Ok((m, q)) => r matches Ok((x, q2)) && expr_view(x) == m && q2 == q,
        Err(e) => err_rel(r, e),
    }
}

pub open spec fn rel_stmt(r: Parsed<Stmt>, s: PR<StmtM>) -> bool {
    match s {
        Ok((m, q)) => r matches Ok((x, q2)) && stmt_view(x) == m && q2 == q,
        Err(e) => err_rel(r, e),
    }
}

pub open spec fn rel_stmts(r: Parsed<Vec<Stmt>>, s: PR<Seq<StmtM>>) -> bool {
    match s {
        Ok((m, q)) => r matches Ok((x, q2)) && stmts_view(x@) == m && q2 == q,
        Err(e) => err_rel(r, e),
    }
}

pub open spec fn rel_args(r: Parsed<(Vec<Expr>, Vec<(String, Expr)>)>, s: PR<(Seq<ExprM>, Seq<(Seq<char>, ExprM)>)>) -> bool {
    match s {
        Ok(((a, k), q)) => r matches Ok(((x, y), q2)) && exprs_view(x@) == a && kw_view(y@) == k && q2 == q,
        Err(e) => err_rel(r, e),
    }
}

pub open spec fn rel_opt_type(r: Parsed<Option<TypeHint>>, s: PR<Option<TypeModel>>) -> bool {
    match s {
        Ok((m, q)) => r matches Ok((x, q2)) && opt_type_view(x) == m && q2 == q,
        Err(e) => err_rel(r, e),
    }
}

pub open spec fn rel_pos(r: Result<usize, (String, usize)>, s: Result<int, (Seq<char>, int)>) -> bool {
    match s {
        Ok(q) => r matches Ok(q2) && q2 == q,
        Err(e) => r matches Err((m, q)) && m@ == e.0 && q == e.1,
    }
}

fn kind_at(t: &Vec<Token>, p: usize) -> (k: TokenKind)
    requires
        tokens_wf(t@),
        p < t@.len(),
    ensures
        k == kd(t@, p as int),
{
    let i = if p < t.len() - 1 { p } else { t.len() - 1 };
    t[i].kind
}

fn tok_at(t: &Vec<Token>, p: usize) -> (r: &Token)
    requires
        tokens_wf(t@),
        p < t@.len(),
    ensures
        *r == at(t@, p as int),
{
    let i = if p < t.len() - 1 { p } else { t.len() - 1 };
    &t[i]
}

fn advance(t: &Vec<Token>, p: usize) -> (q: usize)
    requires
        tokens_wf(t@),
        p < t@.len(),
    ensures
        q == adv(t@, p as int),
        p <= q < t@.len(),
        kd(t@, p as int) != TokenKind::Eof ==> q == p + 1,
{
    if p < t.len() - 1 { p + 1 } else { p }
}

fn skip_newlines(t: &Vec<Token>, p: usize) -> (q: usize)
    requires
        tokens_wf(t@),
        p < t@.len(),
    ensures
        q == skip_nl(t@, p as int),
        p <= q < t@.len(),
{
    let mut i = p;
    while i < t.len() - 1 && t[i].kind == TokenKind::Newline
        invariant
            tokens_wf(t@),
            p <= i < t@.len(),
            skip_nl(t@, i as int) == skip_nl(t@, p as int),
        decreases t@.len() - i,
    {
        i = i + 1;
    }
    i
}

/// `(line N)`.
fn line_text(line: usize) -> (s: String)
    ensures
        s@ == line_of(line),
{
    let mut s = "(line ".to_owned();
    let d = decimal(line as u64);
    let ds = chars_to_string(d.as_slice());
    push_str(&mut s, ds.as_str());
    push_str(&mut s, ")");
    s
}

/// `a` then the line note of the token at `p`, then `b`, then `c`.
fn message(a: &str, t: &Vec<Token>, p: usize, b: &str, c: &str) -> (s: String)
    requires
        tokens_wf(t@),
        p < t@.len(),
    ensures
        s@ == a@ + line_note(t@, p as int) + b@ + c@,
{
    let mut s = a.to_owned();
    let l = line_text(tok_at(t, p).line);
    push_str(&mut s, l.as_str());
    push_str(&mut s, b);
    push_str(&mut s, c);
    s
}

fn expect_ident(t: &Vec<Token>, p: usize) -> (r: Parsed<String>)
    requires
        tokens_wf(t@),
        p < t@.len(),
    ensures
        rel_name(r, ident_spec(t@, p as int)),
        res_pos(r, p as int, t@.len() as int),
        r matches Ok((_, q)) ==> q == p + 1,
{
    let q = advance(t, p);
    let tok = tok_at(t, p);
    if tok.kind == TokenKind::Ident {
        Ok((tok.text.clone(), q))
    } else {
        Err((message("नाम अपेक्षित ", t, p, ", मिला: ", tok.shown.as_str()), q))
    }
}

fn expect_field(t: &Vec<Token>, p: usize) -> (r: Parsed<String>)
    requires
        tokens_wf(t@),
        p < t@.len(),
    ensures
        rel_name(r, field_spec(t@, p as int)),
        res_pos(r, p as int, t@.len() as int),
        r matches Ok((_, q)) ==> q == p + 1,
{
    let q = advance(t, p);
    let tok = tok_at(t, p);
    match tok.kind {
        TokenKind::Ident => Ok((tok.text.clone(), q)),
        TokenKind::Milao => Ok(("मिलाओ".to_owned(), q)),
        TokenKind::Batao => Ok(("बताओ".to_owned(), q)),
        TokenKind::Likho => Ok(("लिखो".to_owned(), q)),
        TokenKind::Aur => Ok(("और".to_owned(), q)),
        TokenKind::Ya => Ok(("या".to_owned(), q)),
        TokenKind::Agla => Ok(("अगला".to_owned(), q)),
        TokenKind::Vikalp => Ok(("विकल्प".to_owned(), q)),
        _ => Err((message("नाम अपेक्षित ", t, p, ", मिला: ", tok.shown.as_str()), q)),
    }
}

fn kind_name_text(k: TokenKind) -> (s: &'static str)
    ensures
        s@ == kind_name(k),
{
    match k {
        TokenKind::Anyatha => "Anyatha",
        TokenKind::BarKaro => "BarKaro",
        TokenKind::Colon => "Colon",
        TokenKind::Dot => "Dot",
        TokenKind::Hai => "Hai",
        TokenKind::KeRupMein => "KeRupMein",
        TokenKind::LParen => "LParen",
        TokenKind::Mein => "Mein",
        TokenKind::RBrace => "RBrace",
        TokenKind::RBracket => "RBracket",
        TokenKind::RParen => "RParen",
        TokenKind::Toh => "Toh",
        TokenKind::Varg => "Varg",
        TokenKind::Vidhi => "Vidhi",
        _ => "?",
    }
}

fn expect(t: &Vec<Token>, p: usize, k: TokenKind) -> (r: Result<usize, (String, usize)>)
    requires
        tokens_wf(t@),
        p < t@.len(),
        k != TokenKind::Eof,
    ensures
        rel_pos(r, expect_spec(t@, p as int, k)),
        r matches Ok(q) ==> q == p + 1,
        r matches Err((_, q)) ==> q < t@.len(),
{
    let q = advance(t, p);
    let tok = tok_at(t, p);
    if tok.kind == k {
        Ok(q)
    } else {
        let mut a = "अपेक्षित ".to_owned();
        push_str(&mut a, kind_name_text(k));
        push_str(&mut a, " ");
        Err((message(a.as_str(), t, p, ", मिला ", tok.shown.as_str()), q))
    }
}

fn karaka_at(t: &Vec<Token>, p: usize) -> (r: (Option<Karaka>, usize))
    requires
        tokens_wf(t@),
        p < t@.len(),
    ensures
        r.0 == karaka_spec(t@, p as int).0,
        r.1 == karaka_spec(t@, p as int).1,
        p <= r.1 < t@.len(),
{
    let k = match kind_at(t, p) {
        TokenKind::Karta => Some(Karaka::Karta),
        TokenKind::Karma => Some(Karaka::Karma),
        TokenKind::Karan => Some(Karaka::Karana),
        TokenKind::Sampradan => Some(Karaka::Sampradan),
        TokenKind::Apadan => Some(Karaka::Apadan),
        TokenKind::Adhikaran => Some(Karaka::Adhikaran),
        _ => None,
    };
    match k {
        Some(_) => (k, advance(t, p)),
        None => (None, p),
    }
}

fn opt_type(t: &Vec<Token>, p: usize, arrow: bool) -> (r: Parsed<Option<TypeHint>>)
    requires
        tokens_wf(t@),
        p < t@.len(),
    ensures
        rel_opt_type(r, opt_type_spec(t@, p as int, arrow)),
        res_pos(r, p as int, t@.len() as int),
{
    let want = if arrow { TokenKind::Arrow } else { TokenKind::Colon };
    if kind_at(t, p) == want {
        match expect_ident(t, advance(t, p)) {
            Err(e) => Err(e),
            Ok((n, q)) => Ok((Some(TypeHint::from_name(n.as_str())), q)),
        }
    } else {
        Ok((None, p))
    }
}

fn default_value(t: &Vec<Token>, p: usize) -> (r: Parsed<Expr>)
    requires
        tokens_wf(t@),
        p < t@.len(),
    ensures
        rel_expr(r, default_spec(t@, p as int)),
        res_pos(r, p as int, t@.len() as int),
{
    let neg = kind_at(t, p) == TokenKind::Minus;
    let p1 = if neg { advance(t, p) } else { p };
    let tok = tok_at(t, p1);
    let q = advance(t, p1);
    match tok.kind {
        TokenKind::Number => {
            let bits: u64 = if neg { tok.number ^ 0x8000_0000_0000_0000u64 } else { tok.number };
            assert(bits == (if neg { at(t@, p1 as int).number ^ 0x8000_0000_0000_0000u64 } else { at(t@, p1 as int).number }));
            Ok((Expr::Number(bits), q))
        },
        TokenKind::Str if !neg => Ok((Expr::Str(tok.text.clone()), q)),
        TokenKind::Bool if !neg => Ok((Expr::Bool(tok.flag), q)),
        _ => {
            let m = message("डिफ़ॉल्ट मान केवल स्थिरांक हो सकता है — संख्या, वाक्य या सत्य/असत्य ", t, p, "", "");
            proof {
                reveal_strlit("");
            }
            assert(m@ =~= "डिफ़ॉल्ट मान केवल स्थिरांक हो सकता है — संख्या, वाक्य या सत्य/असत्य "@ + line_note(t@, p as int));
            Err((m, p1))
        },
    }
}


// ── Expressions (exec) ────────────────────────────────────────────────────────

fn level_op_of(lvl: u8, k: TokenKind) -> (o: Option<BinOp>)
    ensures
        o == level_op(lvl as nat, k),
{
    if lvl == 9 && k == TokenKind::Ya {
        Some(BinOp::Or)
    } else if lvl == 8 && k == TokenKind::Aur {
        Some(BinOp::And)
    } else if lvl == 7 && k == TokenKind::BitOr {
        Some(BinOp::BitOr)
    } else if lvl == 6 && k == TokenKind::BitXor {
        Some(BinOp::BitXor)
    } else if lvl == 5 && k == TokenKind::BitAnd {
        Some(BinOp::BitAnd)
    } else if lvl == 3 && k == TokenKind::LShift {
        Some(BinOp::LShift)
    } else if lvl == 3 && k == TokenKind::RShift {
        Some(BinOp::RShift)
    } else if lvl == 2 && k == TokenKind::Plus {
        Some(BinOp::Add)
    } else if lvl == 2 && k == TokenKind::Minus {
        Some(BinOp::Sub)
    } else if lvl == 1 && k == TokenKind::Star {
        Some(BinOp::Mul)
    } else if lvl == 1 && k == TokenKind::Slash {
        Some(BinOp::Div)
    } else if lvl == 1 && k == TokenKind::SlashSlash {
        Some(BinOp::FloorDiv)
    } else if lvl == 1 && k == TokenKind::Percent {
        Some(BinOp::Mod)
    } else {
        None
    }
}

fn compare_op_of(k: TokenKind) -> (o: Option<CmpOp>)
    ensures
        o == compare_op(k),
{
    match k {
        TokenKind::SeAdhik => Some(CmpOp::SeAdhik),
        TokenKind::SeKam => Some(CmpOp::SeKam),
        TokenKind::Barabar => Some(CmpOp::Eq),
        TokenKind::EqEq => Some(CmpOp::Eq),
        TokenKind::NotEq => Some(CmpOp::NotEq),
        TokenKind::Lt => Some(CmpOp::Lt),
        TokenKind::Gt => Some(CmpOp::Gt),
        TokenKind::LtEq => Some(CmpOp::LtEq),
        TokenKind::GtEq => Some(CmpOp::GtEq),
        _ => None,
    }
}

fn stuck_error(t: &Vec<Token>, p: usize) -> (s: String)
    requires
        tokens_wf(t@),
        p < t@.len(),
    ensures
        s@ == stuck(t@, p as int),
{
    let m = message("व्याकरण: कोई प्रगति नहीं ", t, p, "", "");
    proof {
        reveal_strlit("");
    }
    assert(m@ =~= stuck(t@, p as int));
    m
}

fn p_expr(t: &Vec<Token>, p: usize) -> (r: Parsed<Expr>)
    requires
        tokens_wf(t@),
        p < t@.len(),
    ensures
        rel_expr(r, expr_spec(t@, p as int)),
        res_pos(r, p as int, t@.len() as int),
    decreases t@.len() - p, 60int,
{
    p_bin(t, p, 9)
}

#[verifier::spinoff_prover]
#[verifier::rlimit(60)]
fn p_bin(t: &Vec<Token>, p: usize, lvl: u8) -> (r: Parsed<Expr>)
    requires
        tokens_wf(t@),
        p < t@.len(),
        lvl <= 9,
    ensures
        rel_expr(r, bin_spec(t@, p as int, lvl as nat)),
        res_pos(r, p as int, t@.len() as int),
    decreases t@.len() - p, 40 + 2 * lvl as int,
{
    match p_operand(t, p, lvl) {
        Err(e) => Err(e),
        Ok((left, q)) => p_bin_rest(t, q, lvl, left),
    }
}

#[verifier::spinoff_prover]
#[verifier::rlimit(60)]
fn p_operand(t: &Vec<Token>, p: usize, lvl: u8) -> (r: Parsed<Expr>)
    requires
        tokens_wf(t@),
        p < t@.len(),
        lvl <= 9,
    ensures
        rel_expr(r, operand_spec(t@, p as int, lvl as nat)),
        res_pos(r, p as int, t@.len() as int),
    decreases t@.len() - p, 40 + 2 * lvl as int - 1,
{
    if lvl == 0 {
        p_unary(t, p)
    } else if lvl == 5 {
        p_compare(t, p)
    } else if lvl == 4 {
        p_bin(t, p, 3)
    } else {
        p_bin(t, p, lvl - 1)
    }
}

#[verifier::spinoff_prover]
#[verifier::rlimit(60)]
fn p_bin_rest(t: &Vec<Token>, p: usize, lvl: u8, left: Expr) -> (r: Parsed<Expr>)
    requires
        tokens_wf(t@),
        p < t@.len(),
        lvl <= 9,
    ensures
        rel_expr(r, bin_rest(t@, p as int, lvl as nat, expr_view(left))),
        res_pos(r, p as int, t@.len() as int),
    decreases t@.len() - p, 40 + 2 * lvl as int - 1,
{
    match level_op_of(lvl, kind_at(t, p)) {
        None => Ok((left, p)),
        Some(op) => {
            let p1 = advance(t, p);
            match p_operand(t, p1, lvl) {
                Err(e) => Err(e),
                Ok((right, q)) => {
                    let e = Expr::Binary { left: Box::new(left), op, right: Box::new(right) };
                    p_bin_rest(t, q, lvl, e)
                },
            }
        },
    }
}

#[verifier::spinoff_prover]
#[verifier::rlimit(60)]
fn p_compare(t: &Vec<Token>, p: usize) -> (r: Parsed<Expr>)
    requires
        tokens_wf(t@),
        p < t@.len(),
    ensures
        rel_expr(r, compare_spec(t@, p as int)),
        res_pos(r, p as int, t@.len() as int),
    decreases t@.len() - p, 47int,
{
    match p_bin(t, p, 3) {
        Err(e) => Err(e),
        Ok((left, q)) => {
            let k = kind_at(t, q);
            if k == TokenKind::MeinHai || k == TokenKind::NahinHai {
                let q1 = advance(t, q);
                match p_bin(t, q1, 3) {
                    Err(e) => Err(e),
                    Ok((c, q2)) => Ok((
                        Expr::Membership { item: Box::new(left), container: Box::new(c), negated: k == TokenKind::NahinHai },
                        q2,
                    )),
                }
            } else {
                p_compare_chain(t, q, left, None)
            }
        },
    }
}

#[verifier::spinoff_prover]
#[verifier::rlimit(60)]
fn p_compare_chain(t: &Vec<Token>, p: usize, left: Expr, acc: Option<Expr>) -> (r: Parsed<Expr>)
    requires
        tokens_wf(t@),
        p < t@.len(),
    ensures
        rel_expr(r, compare_chain(t@, p as int, expr_view(left), opt_expr_view(acc))),
        res_pos(r, p as int, t@.len() as int),
    decreases t@.len() - p, 46int,
{
    match compare_op_of(kind_at(t, p)) {
        None => match acc {
            Some(a) => Ok((a, p)),
            None => Ok((left, p)),
        },
        Some(op) => {
            let p1 = advance(t, p);
            match p_bin(t, p1, 3) {
                Err(e) => Err(e),
                Ok((right, q)) => {
                    // The middle operand stands in two comparisons: read it twice.
                    let right2 = match p_bin(t, p1, 3) {
                        Ok((x, _)) => x,
                        Err(_) => {
                            assert(false);
                            Expr::Number(0)
                        },
                    };
                    let ghost lv = expr_view(left);
                    let ghost rv = expr_view(right);
                    let cx = Expr::Compare { left: Box::new(left), op, right: Box::new(right) };
                    assert(expr_view(cx) == ExprM::Compare(Box::new(lv), op, Box::new(rv)));
                    let acc2 = match acc {
                        None => cx,
                        Some(prev) => Expr::Binary { left: Box::new(prev), op: BinOp::And, right: Box::new(cx) },
                    };
                    p_compare_chain(t, q, right2, Some(acc2))
                },
            }
        },
    }
}

#[verifier::spinoff_prover]
#[verifier::rlimit(100)]
fn p_unary(t: &Vec<Token>, p: usize) -> (r: Parsed<Expr>)
    requires
        tokens_wf(t@),
        p < t@.len(),
    ensures
        rel_expr(r, unary_spec(t@, p as int)),
        res_pos(r, p as int, t@.len() as int),
    decreases t@.len() - p, 30int,
{
    let k = kind_at(t, p);
    if k == TokenKind::Minus || k == TokenKind::BitNot || k == TokenKind::Nahin {
        let p1 = advance(t, p);
        assert(expr_view(Expr::Number(0)) == ExprM::Number(0));
        let sub = if k == TokenKind::Nahin { p_unary(t, p1) } else { p_primary(t, p1) };
        match sub {
            Err(e) => Err(e),
            Ok((x, q)) => Ok((
                if k == TokenKind::Minus {
                    Expr::Binary { left: Box::new(Expr::Number(0)), op: BinOp::Sub, right: Box::new(x) }
                } else if k == TokenKind::BitNot {
                    Expr::BitNot(Box::new(x))
                } else {
                    Expr::Not(Box::new(x))
                },
                q,
            )),
        }
    } else {
        p_primary(t, p)
    }
}

#[verifier::spinoff_prover]
#[verifier::rlimit(60)]
fn p_primary(t: &Vec<Token>, p: usize) -> (r: Parsed<Expr>)
    requires
        tokens_wf(t@),
        p < t@.len(),
    ensures
        rel_expr(r, primary_spec(t@, p as int)),
        res_pos(r, p as int, t@.len() as int),
    decreases t@.len() - p, 28int,
{
    match p_atom(t, p) {
        Err(e) => Err(e),
        Ok((x, q)) => p_postfix(t, q, x),
    }
}

fn p_call_args(t: &Vec<Token>, p: usize) -> (r: Parsed<(Vec<Expr>, Vec<(String, Expr)>)>)
    requires
        tokens_wf(t@),
        p < t@.len(),
    ensures
        rel_args(r, call_args_spec(t@, p as int)),
        res_pos(r, p as int, t@.len() as int),
    decreases t@.len() - p, 68int,
{
    match p_args(t, p) {
        Err(e) => Err(e),
        Ok((a, q)) => match expect(t, q, TokenKind::RParen) {
            Err(e) => Err(e),
            Ok(q2) => Ok((a, q2)),
        },
    }
}

#[verifier::spinoff_prover]
#[verifier::rlimit(60)]
fn p_member(t: &Vec<Token>, p: usize, obj: Expr) -> (r: Parsed<Expr>)
    requires
        tokens_wf(t@),
        p < t@.len(),
    ensures
        rel_expr(r, member_spec(t@, p as int, expr_view(obj))),
        res_pos(r, p as int, t@.len() as int),
    decreases t@.len() - p, 69int,
{
    match expect_field(t, p) {
        Err(e) => Err(e),
        Ok((f, q)) => if kind_at(t, q) == TokenKind::LParen {
            let q1 = advance(t, q);
            match p_call_args(t, q1) {
                Err(e) => Err(e),
                Ok(((a, kw), q2)) => {
                    let e = make_method_call(obj, f, a, kw);
                    Ok((e, q2))
                },
            }
        } else {
            Ok((Expr::Attr { obj: Box::new(obj), field: f }, q))
        },
    }
}

#[verifier::spinoff_prover]
#[verifier::rlimit(60)]
fn p_postfix(t: &Vec<Token>, p: usize, x: Expr) -> (r: Parsed<Expr>)
    requires
        tokens_wf(t@),
        p < t@.len(),
    ensures
        rel_expr(r, postfix_spec(t@, p as int, expr_view(x))),
        res_pos(r, p as int, t@.len() as int),
    decreases t@.len() - p, 27int,
{
    let k = kind_at(t, p);
    if k == TokenKind::LBracket || k == TokenKind::Dot {
        let p1 = advance(t, p);
        let sub = if k == TokenKind::LBracket { p_bracket(t, p1, x) } else { p_member(t, p1, x) };
        match sub {
            Err(e) => Err(e),
            Ok((y, q)) => p_postfix(t, q, y),
        }
    } else {
        Ok((x, p))
    }
}

#[verifier::spinoff_prover]
#[verifier::rlimit(60)]
fn p_bracket(t: &Vec<Token>, p: usize, obj: Expr) -> (r: Parsed<Expr>)
    requires
        tokens_wf(t@),
        p < t@.len(),
    ensures
        rel_expr(r, bracket_spec(t@, p as int, expr_view(obj))),
        res_pos(r, p as int, t@.len() as int),
    decreases t@.len() - p, 65int,
{
    if kind_at(t, p) == TokenKind::Colon {
        p_slice_rest(t, advance(t, p), obj, None)
    } else {
        match p_expr(t, p) {
            Err(e) => Err(e),
            Ok((i, q)) => if kind_at(t, q) == TokenKind::RBracket {
                Ok((Expr::Index { obj: Box::new(obj), idx: Box::new(i) }, advance(t, q)))
            } else {
                match expect(t, q, TokenKind::Colon) {
                    Err(e) => Err(e),
                    Ok(q1) => p_slice_rest(t, q1, obj, Some(i)),
                }
            },
        }
    }
}

pub open spec fn rel_opt(r: Parsed<Option<Expr>>, s: PR<Option<ExprM>>) -> bool {
    match s {
        Ok((m, q)) => r matches Ok((x, q2)) && opt_expr_view(x) == m && q2 == q,
        Err(e) => err_rel(r, e),
    }
}

fn p_opt_expr(t: &Vec<Token>, p: usize, colon_ends: bool) -> (r: Parsed<Option<Expr>>)
    requires
        tokens_wf(t@),
        p < t@.len(),
    ensures
        rel_opt(r, opt_expr_spec(t@, p as int, colon_ends)),
        res_pos(r, p as int, t@.len() as int),
    decreases t@.len() - p, 63int,
{
    let k = kind_at(t, p);
    if (colon_ends && k == TokenKind::Colon) || k == TokenKind::RBracket {
        Ok((None, p))
    } else {
        match p_expr(t, p) {
            Err(e) => Err(e),
            Ok((x, q)) => Ok((Some(x), q)),
        }
    }
}

fn boxed(o: Option<Expr>) -> (r: Option<Box<Expr>>)
    ensures
        match o {
            Some(x) => r matches Some(b) && *b == x,
            None => r is None,
        },
{
    match o {
        Some(x) => Some(Box::new(x)),
        None => None,
    }
}

#[verifier::spinoff_prover]
#[verifier::rlimit(60)]
fn p_slice_rest(t: &Vec<Token>, p: usize, obj: Expr, start: Option<Expr>) -> (r: Parsed<Expr>)
    requires
        tokens_wf(t@),
        p < t@.len(),
    ensures
        rel_expr(r, slice_rest_spec(t@, p as int, expr_view(obj), opt_expr_view(start))),
        res_pos(r, p as int, t@.len() as int),
    decreases t@.len() - p, 64int,
{
    match p_opt_expr(t, p, true) {
        Err(e) => Err(e),
        Ok((end, q)) => {
            let st = if kind_at(t, q) == TokenKind::Colon {
                p_opt_expr(t, advance(t, q), false)
            } else {
                Ok((None, q))
            };
            match st {
                Err(e) => Err(e),
                Ok((step, q2)) => match expect(t, q2, TokenKind::RBracket) {
                    Err(e) => Err(e),
                    Ok(q3) => Ok((
                        Expr::Slice { obj: Box::new(obj), start: boxed(start), end: boxed(end), step: boxed(step) },
                        q3,
                    )),
                },
            }
        },
    }
}

fn p_args(t: &Vec<Token>, p: usize) -> (r: Parsed<(Vec<Expr>, Vec<(String, Expr)>)>)
    requires
        tokens_wf(t@),
        p < t@.len(),
    ensures
        rel_args(r, args_spec(t@, p as int)),
        res_pos(r, p as int, t@.len() as int),
    decreases t@.len() - p, 67int,
{
    if kind_at(t, p) == TokenKind::RParen {
        Ok(((Vec::new(), Vec::new()), p))
    } else {
        p_args_loop(t, p, Vec::new(), Vec::new())
    }
}

fn kw_contains(kw: &Vec<(String, Expr)>, n: &String) -> (b: bool)
    ensures
        b == kw_has(kw_view(kw@), n@),
{
    let mut i: usize = 0;
    while i < kw.len()
        invariant
            i <= kw@.len(),
            forall|j: int| 0 <= j < i ==> #[trigger] kw_view(kw@)[j].0 != n@,
        decreases kw@.len() - i,
    {
        proof {
            lemma_kw_view_at(kw@, i as int);
        }
        if str_eq(kw[i].0.as_str(), n.as_str()) {
            return true;
        }
        i = i + 1;
    }
    proof {
        lemma_kw_view_len(kw@);
    }
    false
}

proof fn lemma_kw_view_len(v: Seq<(String, Expr)>)
    ensures
        kw_view(v).len() == v.len(),
    decreases v.len(),
{
    if v.len() > 0 {
        lemma_kw_view_len(v.drop_last());
    }
}

proof fn lemma_kw_view_at(v: Seq<(String, Expr)>, i: int)
    requires
        0 <= i < v.len(),
    ensures
        kw_view(v).len() == v.len(),
        kw_view(v)[i].0 == v[i].0@,
    decreases v.len(),
{
    lemma_kw_view_len(v);
    if i < v.len() - 1 {
        lemma_kw_view_at(v.drop_last(), i);
    }
}

#[verifier::spinoff_prover]
#[verifier::rlimit(60)]
fn p_args_loop(t: &Vec<Token>, p: usize, args: Vec<Expr>, kw: Vec<(String, Expr)>) -> (r: Parsed<(Vec<Expr>, Vec<(String, Expr)>)>)
    requires
        tokens_wf(t@),
        p < t@.len(),
    ensures
        rel_args(r, args_loop(t@, p as int, exprs_view(args@), kw_view(kw@))),
        res_pos(r, p as int, t@.len() as int),
    decreases t@.len() - p, 66int,
{
    let mut args = args;
    let mut kw = kw;
    let ghost a0 = exprs_view(args@);
    let ghost k0 = kw_view(kw@);
    let is_kw = kind_at(t, p) == TokenKind::Ident && kind_at(t, advance(t, p)) == TokenKind::Assign;
    let q: usize;
    if is_kw {
        let name = tok_at(t, p).text.clone();
        let p2 = advance(t, advance(t, p));
        if kw_contains(&kw, &name) {
            let mut m = "कीवर्ड तर्क '".to_owned();
            push_str(&mut m, name.as_str());
            push_str(&mut m, "' दो बार दिया गया ");
            let msg = message(m.as_str(), t, p, "", "");
            proof {
                reveal_strlit("");
            }
            assert(msg@ =~= "कीवर्ड तर्क '"@ + name@ + "' दो बार दिया गया "@ + line_note(t@, p as int));
            return Err((msg, p2));
        }
        match p_expr(t, p2) {
            Err(e) => {
                return Err(e);
            },
            Ok((v, q1)) => {
                let ghost kw_before = kw@;
                let ghost nv = name@;
                let ghost ev = expr_view(v);
                kw.push((name, v));
                assert(kw@.drop_last() =~= kw_before);
                assert(kw_view(kw@) == k0.push((nv, ev)));
                q = q1;
            },
        }
    } else if kw.len() > 0 {
        let msg = message("कीवर्ड तर्क के बाद स्थान-आधारित तर्क नहीं आ सकता ", t, p, "", "");
        proof {
            reveal_strlit("");
            lemma_kw_view_len(kw@);
        }
        assert(msg@ =~= "कीवर्ड तर्क के बाद स्थान-आधारित तर्क नहीं आ सकता "@ + line_note(t@, p as int));
        return Err((msg, p));
    } else {
        proof {
            lemma_kw_view_len(kw@);
        }
        match p_expr(t, p) {
            Err(e) => {
                return Err(e);
            },
            Ok((v, q1)) => {
                let ghost before = args@;
                args.push(v);
                assert(args@.drop_last() =~= before);
                q = q1;
            },
        }
    }
    if kind_at(t, q) == TokenKind::Comma {
        p_args_loop(t, advance(t, q), args, kw)
    } else {
        Ok(((args, kw), q))
    }
}


#[verifier::spinoff_prover]
#[verifier::rlimit(100)]
fn p_atom(t: &Vec<Token>, p: usize) -> (r: Parsed<Expr>)
    requires
        tokens_wf(t@),
        p < t@.len(),
    ensures
        rel_expr(r, atom_spec(t@, p as int)),
        res_pos(r, p as int, t@.len() as int),
    decreases t@.len() - p, 26int,
{
    let tok = tok_at(t, p);
    let p1 = advance(t, p);
    match tok.kind {
        TokenKind::Pratiksha => match p_unary(t, p1) {
            Err(e) => Err(e),
            Ok((x, q)) => Ok((Expr::Await(Box::new(x)), q)),
        },
        TokenKind::Number => Ok((Expr::Number(tok.number), p1)),
        TokenKind::Str => Ok((str_expr(&tok.text), p1)),
        TokenKind::Bool => Ok((Expr::Bool(tok.flag), p1)),
        TokenKind::Ident => p_atom_ident(t, p),
        TokenKind::LParen | TokenKind::Yadi | TokenKind::Lambda | TokenKind::LBracket | TokenKind::LBrace => p_atom_open(t, p),
        _ => Err((message("अपेक्षित मान नहीं मिला ", t, p, ", मिला: ", tok.shown.as_str()), p1)),
    }
}

#[verifier::spinoff_prover]
#[verifier::rlimit(100)]
fn p_atom_ident(t: &Vec<Token>, p: usize) -> (r: Parsed<Expr>)
    requires
        tokens_wf(t@),
        p < t@.len(),
        kd(t@, p as int) == TokenKind::Ident,
    ensures
        rel_expr(r, atom_spec(t@, p as int)),
        res_pos(r, p as int, t@.len() as int),
    decreases t@.len() - p, 25int,
{
    let tok = tok_at(t, p);
    let p1 = advance(t, p);
    let name = tok.text.clone();
    let k1 = kind_at(t, p1);
    if k1 == TokenKind::ColonEq || k1 == TokenKind::LParen || k1 == TokenKind::Dot {
        let p2 = advance(t, p1);
        if k1 == TokenKind::ColonEq {
            match p_expr(t, p2) {
                Err(e) => Err(e),
                Ok((v, q)) => Ok((Expr::Walrus { name, value: Box::new(v) }, q)),
            }
        } else if k1 == TokenKind::LParen {
            match p_call_args(t, p2) {
                Err(e) => Err(e),
                Ok(((a, kw), q)) => Ok((make_call(name, a, kw), q)),
            }
        } else {
            let ghost nv = name@;
            let obj = Expr::Ident(name);
            assert(expr_view(obj) == ExprM::Ident(nv));
            p_member(t, p2, obj)
        }
    } else {
        Ok((Expr::Ident(name), p1))
    }
}

#[verifier::spinoff_prover]
#[verifier::rlimit(100)]
fn p_atom_open(t: &Vec<Token>, p: usize) -> (r: Parsed<Expr>)
    requires
        tokens_wf(t@),
        p < t@.len(),
        kd(t@, p as int) == TokenKind::LParen || kd(t@, p as int) == TokenKind::Yadi || kd(t@, p as int) == TokenKind::Lambda
            || kd(t@, p as int) == TokenKind::LBracket || kd(t@, p as int) == TokenKind::LBrace,
    ensures
        rel_expr(r, atom_spec(t@, p as int)),
        res_pos(r, p as int, t@.len() as int),
    decreases t@.len() - p, 25int,
{
    let k = kind_at(t, p);
    let p1 = advance(t, p);
    match k {
        TokenKind::LParen => match p_expr(t, p1) {
            Err(e) => Err(e),
            Ok((x, q)) => match expect(t, q, TokenKind::RParen) {
                Err(e) => Err(e),
                Ok(q2) => Ok((x, q2)),
            },
        },
        TokenKind::Yadi => p_ternary(t, p1),
        TokenKind::Lambda => p_lambda(t, p1),
        TokenKind::LBracket => if kind_at(t, p1) == TokenKind::RBracket {
            let v: Vec<Expr> = Vec::new();
            assert(exprs_view(v@) =~= Seq::<ExprM>::empty());
            Ok((Expr::List(v), advance(t, p1)))
        } else {
            assert(spread_view(Seq::<(bool, Expr)>::empty()) =~= Seq::<(bool, ExprM)>::empty());
            p_list_loop(t, p1, Vec::new(), false)
        },
        _ => if kind_at(t, p1) == TokenKind::RBrace {
            let v: Vec<(Expr, Expr)> = Vec::new();
            assert(pairs_view(v@) =~= Seq::<(ExprM, ExprM)>::empty());
            Ok((Expr::Dict(v), advance(t, p1)))
        } else {
            assert(pairs_view(Seq::<(Expr, Expr)>::empty()) =~= Seq::<(ExprM, ExprM)>::empty());
            p_dict_loop(t, p1, Vec::new())
        },
    }
}

/// A string literal's expression (see `str_model`).
fn str_expr(s: &String) -> (e: Expr)
    ensures
        expr_view(e) == str_model(s@),
{
    let cs = str_chars(s.as_str());
    let mut open = false;
    let mut close = false;
    let mut i: usize = 0;
    while i < cs.len()
        invariant
            i <= cs@.len(),
            cs@ == s@,
            open == (exists|j: int| 0 <= j < i && cs@[j] == '{'),
            close == (exists|j: int| 0 <= j < i && cs@[j] == '}'),
        decreases cs@.len() - i,
    {
        if cs[i] == '{' {
            open = true;
        }
        if cs[i] == '}' {
            close = true;
        }
        i = i + 1;
    }
    if open && close {
        let e = parse_fmt_string(s.as_str());
        proof {
            lemma_fmt_model(e, fmt_parts(s@));
        }
        e
    } else {
        Expr::Str(s.clone())
    }
}

proof fn lemma_target_model(e: Expr, inner: Seq<char>)
    requires
        target_ok(e, inner),
    ensures
        expr_view(e) == target_model(inner),
{
    if let Expr::Attr { obj, field } = e {
        if let Expr::Ident(o) = *obj {
            assert(expr_view(*obj) == ExprM::Ident(o@));
        }
    }
}

proof fn lemma_piece_model(e: Expr, pc: Piece)
    requires
        piece_ok(e, pc),
    ensures
        expr_view(e) == piece_model(pc),
{
    match pc {
        Piece::Lit(x) => {},
        Piece::Target(inner) => {
            if let Expr::Call { name, args } = e {
                lemma_target_model(args@[0], inner);
                lemma_exprs_view(args@);
                assert(exprs_view(args@) =~= seq![target_model(inner)]);
            }
        },
        Piece::Spec(tg, sp) => {
            if let Expr::Call { name, args } = e {
                lemma_target_model(args@[1], tg);
                lemma_exprs_view(args@);
                if let Expr::Str(f) = args@[0] {
                    assert(expr_view(args@[0]) == ExprM::Str(f@));
                }
                assert(exprs_view(args@) =~= seq![ExprM::Str(seq!['{', ':'] + sp + seq!['}']), target_model(tg)]);
            }
        },
    }
}

proof fn lemma_fmt_model(e: Expr, ps: Seq<Piece>)
    requires
        chain_ok(e, ps),
    ensures
        expr_view(e) == fmt_model(ps),
    decreases ps.len(),
{
    if ps.len() == 0 {
        if let Expr::Str(x) = e {
            assert(x@ =~= Seq::<char>::empty());
        }
    } else if ps.len() == 1 {
        lemma_piece_model(e, ps[0]);
    } else if ps.len() > 1 {
        if let Expr::Binary { left, op, right } = e {
            lemma_fmt_model(*left, ps.drop_last());
            lemma_piece_model(*right, ps.last());
        }
    }
}

#[verifier::spinoff_prover]
#[verifier::rlimit(60)]
fn p_ternary(t: &Vec<Token>, p: usize) -> (r: Parsed<Expr>)
    requires
        tokens_wf(t@),
        p < t@.len(),
    ensures
        rel_expr(r, ternary_spec(t@, p as int)),
        res_pos(r, p as int, t@.len() as int),
    decreases t@.len() - p, 75int,
{
    match p_expr(t, p) {
        Err(e) => Err(e),
        Ok((c, q)) => match expect(t, q, TokenKind::Toh) {
            Err(e) => Err(e),
            Ok(q1) => match p_expr(t, q1) {
                Err(e) => Err(e),
                Ok((a, q2)) => match expect(t, q2, TokenKind::Anyatha) {
                    Err(e) => Err(e),
                    Ok(q3) => match p_expr(t, q3) {
                        Err(e) => Err(e),
                        Ok((b, q4)) => Ok((
                            Expr::Ternary { condition: Box::new(c), then_val: Box::new(a), else_val: Box::new(b) },
                            q4,
                        )),
                    },
                },
            },
        },
    }
}

#[verifier::spinoff_prover]
#[verifier::rlimit(100)]
fn p_lambda_tail(t: &Vec<Token>, p: usize, names: Vec<String>, va: Option<String>) -> (r: Parsed<Expr>)
    requires
        tokens_wf(t@),
        p < t@.len(),
    ensures
        rel_expr(r, lambda_tail(t@, p as int, names_view(names@), opt_str_view(va))),
        res_pos(r, p as int, t@.len() as int),
    decreases t@.len() - p, 96int,
{
    let k = kind_at(t, p);
    if k == TokenKind::Newline || k == TokenKind::Eof {
        match p_block(t, skip_newlines(t, p)) {
            Err(e) => Err(e),
            Ok((b, q3)) => Ok((Expr::Lambda { params: names, vararg: va, body: b }, q3)),
        }
    } else {
        match p_expr(t, p) {
            Err(e) => Err(e),
            Ok((x, q3)) => {
                let mut b: Vec<Stmt> = Vec::new();
                assert(stmts_view(Seq::<Stmt>::empty()) =~= Seq::<StmtM>::empty());
                let ghost xv = expr_view(x);
                let st = Stmt::Fal(x);
                assert(stmt_view(st) == StmtM::Fal(xv));
                push_stmt(&mut b, st);
                Ok((Expr::Lambda { params: names, vararg: va, body: b }, q3))
            },
        }
    }
}

pub open spec fn rel_lam(r: Parsed<(Vec<String>, Option<String>)>, s: PR<(Seq<Seq<char>>, Option<Seq<char>>)>) -> bool {
    match s {
        Ok(((a, b), q)) => r matches Ok(((x, y), q2)) && names_view(x@) == a && opt_str_view(y) == b && q2 == q,
        Err(e) => err_rel(r, e),
    }
}

fn p_lam_params(t: &Vec<Token>, p: usize, names: Vec<String>) -> (r: Parsed<(Vec<String>, Option<String>)>)
    requires
        tokens_wf(t@),
        p < t@.len(),
    ensures
        rel_lam(r, lam_params(t@, p as int, names_view(names@))),
        res_pos(r, p as int, t@.len() as int),
    decreases t@.len() - p,
{
    let mut names = names;
    if kind_at(t, p) == TokenKind::Star {
        return match expect_ident(t, advance(t, p)) {
            Err(e) => Err(e),
            Ok((v, q)) => Ok(((names, Some(v)), q)),
        };
    }
    match expect_ident(t, p) {
        Err(e) => Err(e),
        Ok((n, q)) => {
            let ghost before = names@;
            names.push(n);
            assert(names_view(names@) =~= names_view(before).push(n@));
            if kind_at(t, q) == TokenKind::Comma {
                p_lam_params(t, advance(t, q), names)
            } else {
                Ok(((names, None), q))
            }
        },
    }
}

#[verifier::spinoff_prover]
#[verifier::rlimit(100)]
fn p_lambda(t: &Vec<Token>, p: usize) -> (r: Parsed<Expr>)
    requires
        tokens_wf(t@),
        p < t@.len(),
    ensures
        rel_expr(r, lambda_spec(t@, p as int)),
        res_pos(r, p as int, t@.len() as int),
    decreases t@.len() - p, 76int,
{
    match expect(t, p, TokenKind::LParen) {
        Err(e) => Err(e),
        Ok(p1) => {
            let ps = if kind_at(t, p1) == TokenKind::RParen {
                assert(names_view(Seq::<String>::empty()) =~= Seq::<Seq<char>>::empty());
                Ok(((Vec::new(), None), p1))
            } else {
                assert(names_view(Seq::<String>::empty()) =~= Seq::<Seq<char>>::empty());
                p_lam_params(t, p1, Vec::new())
            };
            match ps {
                Err(e) => Err(e),
                Ok(((names, va), q)) => match expect(t, q, TokenKind::RParen) {
                    Err(e) => Err(e),
                    Ok(q1) => match expect(t, q1, TokenKind::Colon) {
                        Err(e) => Err(e),
                        Ok(q2) => p_lambda_tail(t, q2, names, va),
                    },
                },
            }
        },
    }
}


proof fn lemma_exprs_view(v: Seq<Expr>)
    ensures
        exprs_view(v).len() == v.len(),
        forall|i: int| 0 <= i < v.len() ==> #[trigger] exprs_view(v)[i] == expr_view(v[i]),
    decreases v.len(),
{
    if v.len() > 0 {
        lemma_exprs_view(v.drop_last());
        assert forall|i: int| 0 <= i < v.len() implies #[trigger] exprs_view(v)[i] == expr_view(v[i]) by {
            if i < v.len() - 1 {
                assert(v.drop_last()[i] == v[i]);
            }
        }
    }
}

proof fn lemma_stmts_view(v: Seq<Stmt>)
    ensures
        stmts_view(v).len() == v.len(),
        forall|i: int| 0 <= i < v.len() ==> #[trigger] stmts_view(v)[i] == stmt_view(v[i]),
    decreases v.len(),
{
    if v.len() > 0 {
        lemma_stmts_view(v.drop_last());
        assert forall|i: int| 0 <= i < v.len() implies #[trigger] stmts_view(v)[i] == stmt_view(v[i]) by {
            if i < v.len() - 1 {
                assert(v.drop_last()[i] == v[i]);
            }
        }
    }
}

proof fn lemma_spread_view(v: Seq<(bool, Expr)>)
    ensures
        spread_view(v).len() == v.len(),
        forall|i: int| 0 <= i < v.len() ==> #[trigger] spread_view(v)[i] == (v[i].0, expr_view(v[i].1)),
    decreases v.len(),
{
    if v.len() > 0 {
        lemma_spread_view(v.drop_last());
        assert forall|i: int| 0 <= i < v.len() implies #[trigger] spread_view(v)[i] == (v[i].0, expr_view(v[i].1)) by {
            if i < v.len() - 1 {
                assert(v.drop_last()[i] == v[i]);
            }
        }
    }
}

/// The element values of a list literal, without their spread flags.
fn drop_flags(v: Vec<(bool, Expr)>) -> (r: Vec<Expr>)
    ensures
        exprs_view(r@) == elem_values(spread_view(v@)),
{
    let ghost orig = v@;
    let mut v = v;
    let mut out: Vec<Expr> = Vec::new();
    let ghost mut k: int = 0;
    while v.len() > 0
        invariant
            0 <= k <= orig.len(),
            v@ == orig.subrange(k, orig.len() as int),
            out@.len() == k,
            forall|j: int| 0 <= j < k ==> #[trigger] out@[j] == orig[j].1,
        decreases v@.len(),
    {
        let (_, e) = v.remove(0);
        out.push(e);
        proof {
            k = k + 1;
        }
        assert(v@ =~= orig.subrange(k, orig.len() as int));
    }
    proof {
        lemma_exprs_view(out@);
        lemma_spread_view(orig);
        assert(exprs_view(out@) =~= elem_values(spread_view(orig)));
    }
    out
}

#[verifier::spinoff_prover]
#[verifier::rlimit(60)]
fn p_list_loop(t: &Vec<Token>, p: usize, elems: Vec<(bool, Expr)>, spread: bool) -> (r: Parsed<Expr>)
    requires
        tokens_wf(t@),
        p < t@.len(),
    ensures
        rel_expr(r, list_loop(t@, p as int, spread_view(elems@), spread)),
        res_pos(r, p as int, t@.len() as int),
    decreases t@.len() - p, 70int,
{
    let mut elems = elems;
    let sp = kind_at(t, p) == TokenKind::Star;
    let p1 = if sp { advance(t, p) } else { p };
    match p_expr(t, p1) {
        Err(e) => Err(e),
        Ok((x, q)) => {
            proof {
                lemma_spread_view(elems@);
            }
            if elems.len() == 0 && !sp && kind_at(t, q) == TokenKind::KeeLiye {
                assert(kw_view(Seq::<(String, Expr)>::empty()) =~= Seq::<(Seq<char>, ExprM)>::empty());
                return p_comp_loop(t, q, x, Vec::new());
            }
            let ghost before = elems@;
            let ghost xv = expr_view(x);
            elems.push((sp, x));
            assert(elems@.drop_last() =~= before);
            assert(spread_view(elems@) == spread_view(before).push((sp, xv)));
            let sp2 = spread || sp;
            if kind_at(t, q) == TokenKind::Comma {
                p_list_loop(t, advance(t, q), elems, sp2)
            } else {
                match expect(t, q, TokenKind::RBracket) {
                    Err(e) => Err(e),
                    Ok(q2) => if sp2 {
                        Ok((Expr::ListWithSpread(elems), q2))
                    } else {
                        Ok((Expr::List(drop_flags(elems)), q2))
                    },
                }
            }
        },
    }
}

#[verifier::spinoff_prover]
#[verifier::rlimit(60)]
fn p_comp_loop(t: &Vec<Token>, p: usize, x: Expr, cl: Vec<(String, Expr)>) -> (r: Parsed<Expr>)
    requires
        tokens_wf(t@),
        p < t@.len(),
    ensures
        rel_expr(r, comp_loop(t@, p as int, expr_view(x), kw_view(cl@))),
        res_pos(r, p as int, t@.len() as int),
    decreases t@.len() - p, 20int,
{
    let mut cl = cl;
    if kind_at(t, p) == TokenKind::KeeLiye {
        match expect_ident(t, advance(t, p)) {
            Err(e) => Err(e),
            Ok((v, q)) => match p_expr(t, q) {
                Err(e) => Err(e),
                Ok((it, q1)) => match expect(t, q1, TokenKind::Mein) {
                    Err(e) => Err(e),
                    Ok(q2) => {
                        let ghost before = cl@;
                        let ghost pair = (v@, expr_view(it));
                        cl.push((v, it));
                        assert(cl@.drop_last() =~= before);
                        assert(kw_view(cl@) == kw_view(before).push(pair));
                        p_comp_loop(t, q2, x, cl)
                    },
                },
            },
        }
    } else {
        let c = if kind_at(t, p) == TokenKind::Yadi {
            match p_expr(t, advance(t, p)) {
                Err(e) => Err(e),
                Ok((c, q)) => Ok((Some(Box::new(c)), q)),
            }
        } else {
            Ok((None, p))
        };
        match c {
            Err(e) => Err(e),
            Ok((cond, q)) => match expect(t, q, TokenKind::RBracket) {
                Err(e) => Err(e),
                Ok(q2) => Ok((Expr::Comprehension { expr: Box::new(x), clauses: cl, cond }, q2)),
            },
        }
    }
}

#[verifier::spinoff_prover]
#[verifier::rlimit(60)]
fn p_dict_loop(t: &Vec<Token>, p: usize, pairs: Vec<(Expr, Expr)>) -> (r: Parsed<Expr>)
    requires
        tokens_wf(t@),
        p < t@.len(),
    ensures
        rel_expr(r, dict_loop(t@, p as int, pairs_view(pairs@))),
        res_pos(r, p as int, t@.len() as int),
    decreases t@.len() - p, 73int,
{
    let mut pairs = pairs;
    match p_expr(t, p) {
        Err(e) => Err(e),
        Ok((k, q)) => match expect(t, q, TokenKind::Colon) {
            Err(e) => Err(e),
            Ok(q1) => match p_expr(t, q1) {
                Err(e) => Err(e),
                Ok((v, q2)) => {
                    let ghost before = pairs@;
                    let ghost pv = (expr_view(k), expr_view(v));
                    pairs.push((k, v));
                    assert(pairs@.drop_last() =~= before);
                    assert(pairs_view(pairs@) == pairs_view(before).push(pv));
                    if kind_at(t, q2) == TokenKind::Comma {
                        p_dict_loop(t, advance(t, q2), pairs)
                    } else {
                        match expect(t, q2, TokenKind::RBrace) {
                            Err(e) => Err(e),
                            Ok(q3) => Ok((Expr::Dict(pairs), q3)),
                        }
                    }
                },
            },
        },
    }
}


// ── Statements (exec) ─────────────────────────────────────────────────────────

pub open spec fn rel_names(r: Parsed<Vec<String>>, s: PR<Seq<Seq<char>>>) -> bool {
    match s {
        Ok((m, q)) => r matches Ok((x, q2)) && names_view(x@) == m && q2 == q,
        Err(e) => err_rel(r, e),
    }
}

pub open spec fn rel_vals(r: Parsed<Vec<Expr>>, s: PR<Seq<ExprM>>) -> bool {
    match s {
        Ok((m, q)) => r matches Ok((x, q2)) && exprs_view(x@) == m && q2 == q,
        Err(e) => err_rel(r, e),
    }
}

pub open spec fn rel_params(r: Parsed<(Vec<Param>, Option<String>)>, s: PR<(Seq<ParamM>, Option<Seq<char>>)>) -> bool {
    match s {
        Ok(((a, b), q)) => r matches Ok(((x, y), q2)) && params_view(x@) == a && opt_str_view(y) == b && q2 == q,
        Err(e) => err_rel(r, e),
    }
}

fn push_stmt(v: &mut Vec<Stmt>, x: Stmt)
    ensures
        stmts_view(final(v)@) == stmts_view(old(v)@).push(stmt_view(x)),
{
    let ghost before = v@;
    let ghost xv = stmt_view(x);
    v.push(x);
    assert(v@.drop_last() =~= before);
}

fn push_name(v: &mut Vec<String>, x: String)
    ensures
        names_view(final(v)@) == names_view(old(v)@).push(x@),
{
    let ghost before = v@;
    v.push(x);
    assert(names_view(v@) =~= names_view(before).push(x@));
}

fn push_expr(v: &mut Vec<Expr>, x: Expr)
    ensures
        exprs_view(final(v)@) == exprs_view(old(v)@).push(expr_view(x)),
{
    let ghost before = v@;
    let ghost xv = expr_view(x);
    v.push(x);
    assert(v@.drop_last() =~= before);
}

#[verifier::spinoff_prover]
#[verifier::rlimit(60)]
fn p_stmt(t: &Vec<Token>, p: usize) -> (r: Parsed<Stmt>)
    requires
        tokens_wf(t@),
        p < t@.len(),
    ensures
        rel_stmt(r, stmt_spec(t@, p as int)),
        res_pos(r, p as int, t@.len() as int),
    decreases t@.len() - p, 90int,
{
    let line = tok_at(t, p).line;
    match p_inner(t, p) {
        Err(e) => Err(e),
        Ok((s, q)) => Ok((Stmt::Located { line, inner: Box::new(s) }, q)),
    }
}

#[verifier::spinoff_prover]
#[verifier::rlimit(60)]
fn p_body(t: &Vec<Token>, p: usize) -> (r: Parsed<Vec<Stmt>>)
    requires
        tokens_wf(t@),
        p < t@.len(),
    ensures
        rel_stmts(r, body_spec(t@, p as int)),
        res_pos(r, p as int, t@.len() as int),
        r matches Ok((_, q)) ==> p < q,
    decreases t@.len() - p, 10int,
{
    match expect(t, p, TokenKind::Colon) {
        Err(e) => Err(e),
        Ok(q) => p_block(t, skip_newlines(t, q)),
    }
}

#[verifier::spinoff_prover]
#[verifier::rlimit(60)]
fn p_block(t: &Vec<Token>, p: usize) -> (r: Parsed<Vec<Stmt>>)
    requires
        tokens_wf(t@),
        p < t@.len(),
    ensures
        rel_stmts(r, block_spec(t@, p as int)),
        res_pos(r, p as int, t@.len() as int),
    decreases t@.len() - p, 95int,
{
    if kind_at(t, p) == TokenKind::Indent {
        let p1 = advance(t, p);
        assert(stmts_view(Seq::<Stmt>::empty()) =~= Seq::<StmtM>::empty());
        p_block_loop(t, skip_newlines(t, p1), Vec::new())
    } else {
        match p_stmt(t, p) {
            Err(e) => Err(e),
            Ok((s, q)) => {
                let mut v: Vec<Stmt> = Vec::new();
                assert(stmts_view(Seq::<Stmt>::empty()) =~= Seq::<StmtM>::empty());
                push_stmt(&mut v, s);
                Ok((v, q))
            },
        }
    }
}

#[verifier::spinoff_prover]
#[verifier::rlimit(60)]
fn p_block_loop(t: &Vec<Token>, p: usize, acc: Vec<Stmt>) -> (r: Parsed<Vec<Stmt>>)
    requires
        tokens_wf(t@),
        p < t@.len(),
    ensures
        rel_stmts(r, block_loop(t@, p as int, stmts_view(acc@))),
        res_pos(r, p as int, t@.len() as int),
    decreases t@.len() - p, 94int,
{
    let mut acc = acc;
    let k = kind_at(t, p);
    if k == TokenKind::Eof {
        Ok((acc, p))
    } else if k == TokenKind::Dedent {
        Ok((acc, advance(t, p)))
    } else {
        match p_stmt(t, p) {
            Err(e) => Err(e),
            Ok((s, q)) => {
                if q <= p {
                    return Err((stuck_error(t, p), q));
                }
                push_stmt(&mut acc, s);
                p_block_loop(t, skip_newlines(t, q), acc)
            },
        }
    }
}

fn is_keyword(k: TokenKind) -> (b: bool)
    ensures
        b == (k == TokenKind::Batao || k == TokenKind::Yadi || k == TokenKind::Vidhi || k == TokenKind::Fal
            || k == TokenKind::Utpann || k == TokenKind::Aayat || k == TokenKind::Varg || k == TokenKind::Sar
            || k == TokenKind::Sajha || k == TokenKind::JabTak || k == TokenKind::BandKaro || k == TokenKind::Agla
            || k == TokenKind::Likho || k == TokenKind::Koshish || k == TokenKind::Phenko || k == TokenKind::Vaishvik
            || k == TokenKind::Vikalp || k == TokenKind::Milao || k == TokenKind::Jancho || k == TokenKind::Sthir
            || k == TokenKind::Shuddha || k == TokenKind::At || k == TokenKind::Parikshan || k == TokenKind::Saath
            || k == TokenKind::Abhilekh),
{
    match k {
        TokenKind::Batao | TokenKind::Yadi | TokenKind::Vidhi | TokenKind::Fal | TokenKind::Utpann | TokenKind::Aayat | TokenKind::Varg
        | TokenKind::Sar | TokenKind::Sajha | TokenKind::JabTak | TokenKind::BandKaro | TokenKind::Agla | TokenKind::Likho
        | TokenKind::Koshish | TokenKind::Phenko | TokenKind::Vaishvik | TokenKind::Vikalp | TokenKind::Milao | TokenKind::Jancho
        | TokenKind::Sthir | TokenKind::Shuddha | TokenKind::At | TokenKind::Parikshan | TokenKind::Saath | TokenKind::Abhilekh => true,
        _ => false,
    }
}

#[verifier::spinoff_prover]
#[verifier::rlimit(60)]
fn p_inner(t: &Vec<Token>, p: usize) -> (r: Parsed<Stmt>)
    requires
        tokens_wf(t@),
        p < t@.len(),
    ensures
        rel_stmt(r, inner_spec(t@, p as int)),
        res_pos(r, p as int, t@.len() as int),
    decreases t@.len() - p, 89int,
{
    let k = kind_at(t, p);
    let p1 = advance(t, p);
    if k == TokenKind::Number && kind_at(t, p1) == TokenKind::BarKaro {
        p_bar_karo(t, p)
    } else if k == TokenKind::Ident {
        p_ident_lead(t, p)
    } else if !is_keyword(k) {
        match p_expr(t, p) {
            Err(e) => Err(e),
            Ok((x, q)) => Ok((Stmt::ExprStmt(x), q)),
        }
    } else if k == TokenKind::Varg || k == TokenKind::Sar {
        p_varg(t, p)
    } else if k == TokenKind::At {
        p_deco_loop(t, p, Vec::new())
    } else if k == TokenKind::Shuddha {
        p_shuddha(t, p)
    } else if k == TokenKind::Parikshan {
        p_parikshan(t, p)
    } else {
        p_keyword_stmt(t, p1, k)
    }
}


#[verifier::spinoff_prover]
#[verifier::rlimit(100)]
fn p_kw_simple(t: &Vec<Token>, p: usize, k: TokenKind) -> (r: Parsed<Stmt>)
    requires
        k == TokenKind::Batao || k == TokenKind::Fal || k == TokenKind::Utpann || k == TokenKind::Likho || k == TokenKind::Phenko,
        tokens_wf(t@),
        p < t@.len(),
    ensures
        rel_stmt(r, keyword_stmt(t@, p as int, k)),
        res_pos(r, p as int, t@.len() as int),
    decreases t@.len() - p, 87int,
{
    match p_expr(t, p) {
        Err(e) => Err(e),
        Ok((x, q)) => Ok((
            match k {
                TokenKind::Batao => Stmt::Print(x),
                TokenKind::Fal => Stmt::Fal(x),
                TokenKind::Utpann => Stmt::Yield(x),
                TokenKind::Likho => Stmt::Likho(x),
                _ => Stmt::Phenko(x),
            },
            q,
        )),
    }
}

#[verifier::spinoff_prover]
#[verifier::rlimit(100)]
fn p_kw_sajha(t: &Vec<Token>, p: usize) -> (r: Parsed<Stmt>)
    requires
        tokens_wf(t@),
        p < t@.len(),
    ensures
        rel_stmt(r, keyword_stmt(t@, p as int, TokenKind::Sajha)),
        res_pos(r, p as int, t@.len() as int),
    decreases t@.len() - p, 87int,
{
    match expect(t, p, TokenKind::Vidhi) {
        Err(e) => Err(e),
        Ok(q) => p_func(t, q, false, true),
    }
}

#[verifier::spinoff_prover]
#[verifier::rlimit(100)]
fn p_kw_jabtak(t: &Vec<Token>, p: usize) -> (r: Parsed<Stmt>)
    requires
        tokens_wf(t@),
        p < t@.len(),
    ensures
        rel_stmt(r, keyword_stmt(t@, p as int, TokenKind::JabTak)),
        res_pos(r, p as int, t@.len() as int),
    decreases t@.len() - p, 87int,
{
    match p_expr(t, p) {
        Err(e) => Err(e),
        Ok((c, q)) => match p_body(t, q) {
            Err(e) => Err(e),
            Ok((b, q2)) => Ok((Stmt::JabTak { condition: c, body: b }, q2)),
        },
    }
}

#[verifier::spinoff_prover]
#[verifier::rlimit(100)]
fn p_kw_jancho(t: &Vec<Token>, p: usize) -> (r: Parsed<Stmt>)
    requires
        tokens_wf(t@),
        p < t@.len(),
    ensures
        rel_stmt(r, keyword_stmt(t@, p as int, TokenKind::Jancho)),
        res_pos(r, p as int, t@.len() as int),
    decreases t@.len() - p, 87int,
{
    match p_expr(t, p) {
        Err(e) => Err(e),
        Ok((x, q)) => if kind_at(t, q) == TokenKind::Comma {
            match p_expr(t, advance(t, q)) {
                Err(e) => Err(e),
                Ok((m, q2)) => Ok((Stmt::Jancho { expr: x, message: Some(m) }, q2)),
            }
        } else {
            Ok((Stmt::Jancho { expr: x, message: None }, q))
        },
    }
}

#[verifier::spinoff_prover]
#[verifier::rlimit(100)]
fn p_kw_sthir(t: &Vec<Token>, p: usize) -> (r: Parsed<Stmt>)
    requires
        tokens_wf(t@),
        p < t@.len(),
    ensures
        rel_stmt(r, keyword_stmt(t@, p as int, TokenKind::Sthir)),
        res_pos(r, p as int, t@.len() as int),
    decreases t@.len() - p, 87int,
{
    match expect_ident(t, p) {
        Err(e) => Err(e),
        Ok((n, q)) => match expect(t, q, TokenKind::Hai) {
            Err(e) => Err(e),
            Ok(q1) => match p_expr(t, q1) {
                Err(e) => Err(e),
                Ok((v, q2)) => Ok((Stmt::SthirDecl { name: n, value: v }, q2)),
            },
        },
    }
}

#[verifier::spinoff_prover]
#[verifier::rlimit(100)]
fn p_kw_saath(t: &Vec<Token>, p: usize) -> (r: Parsed<Stmt>)
    requires
        tokens_wf(t@),
        p < t@.len(),
    ensures
        rel_stmt(r, keyword_stmt(t@, p as int, TokenKind::Saath)),
        res_pos(r, p as int, t@.len() as int),
    decreases t@.len() - p, 87int,
{
    match p_expr(t, p) {
        Err(e) => Err(e),
        Ok((x, q)) => match expect(t, q, TokenKind::KeRupMein) {
            Err(e) => Err(e),
            Ok(q1) => match expect_ident(t, q1) {
                Err(e) => Err(e),
                Ok((v, q2)) => match p_body(t, q2) {
                    Err(e) => Err(e),
                    Ok((b, q3)) => Ok((Stmt::Saath { expr: x, var: v, body: b }, q3)),
                },
            },
        },
    }
}

#[verifier::spinoff_prover]
#[verifier::rlimit(100)]
fn p_kw_vaishvik(t: &Vec<Token>, p: usize) -> (r: Parsed<Stmt>)
    requires
        tokens_wf(t@),
        p < t@.len(),
    ensures
        rel_stmt(r, keyword_stmt(t@, p as int, TokenKind::Vaishvik)),
        res_pos(r, p as int, t@.len() as int),
    decreases t@.len() - p, 87int,
{
    match expect_ident(t, p) {
        Err(e) => Err(e),
        Ok((n, q)) => {
            let mut v: Vec<String> = Vec::new();
            assert(names_view(Seq::<String>::empty()) =~= Seq::<Seq<char>>::empty());
            push_name(&mut v, n);
            p_names_loop(t, q, v)
        },
    }
}

#[verifier::spinoff_prover]
#[verifier::rlimit(100)]
fn p_keyword_stmt(t: &Vec<Token>, p: usize, k: TokenKind) -> (r: Parsed<Stmt>)
    requires
        tokens_wf(t@),
        p < t@.len(),
    ensures
        rel_stmt(r, keyword_stmt(t@, p as int, k)),
        res_pos(r, p as int, t@.len() as int),
    decreases t@.len() - p, 88int,
{
    match k {
        TokenKind::Batao | TokenKind::Fal | TokenKind::Utpann | TokenKind::Likho | TokenKind::Phenko => p_kw_simple(t, p, k),
        TokenKind::BandKaro => Ok((Stmt::BandKaro, p)),
        TokenKind::Agla => Ok((Stmt::Agla, p)),
        TokenKind::Yadi => p_yadi(t, p),
        TokenKind::Vidhi => p_func(t, p, false, false),
        TokenKind::Sajha => p_kw_sajha(t, p),
        TokenKind::JabTak => p_kw_jabtak(t, p),
        TokenKind::Jancho => p_kw_jancho(t, p),
        TokenKind::Sthir => p_kw_sthir(t, p),
        TokenKind::Saath => p_kw_saath(t, p),
        TokenKind::Koshish => p_koshish(t, p),
        TokenKind::Vaishvik => p_kw_vaishvik(t, p),
        TokenKind::Vikalp => p_vikalp(t, p),
        TokenKind::Milao => p_milao(t, p),
        TokenKind::Aayat => p_aayat(t, p),
        TokenKind::Abhilekh => p_abhilekh(t, p),
        _ => Err((stuck_error(t, p), p)),
    }
}

#[verifier::spinoff_prover]
#[verifier::rlimit(60)]
fn p_names_loop(t: &Vec<Token>, p: usize, names: Vec<String>) -> (r: Parsed<Stmt>)
    requires
        tokens_wf(t@),
        p < t@.len(),
    ensures
        rel_stmt(r, names_loop(t@, p as int, names_view(names@))),
        res_pos(r, p as int, t@.len() as int),
    decreases t@.len() - p,
{
    let mut names = names;
    if p < t.len() - 1 && kind_at(t, p) == TokenKind::Comma {
        match expect_ident(t, p + 1) {
            Err(e) => Err(e),
            Ok((n, q)) => {
                push_name(&mut names, n);
                p_names_loop(t, q, names)
            },
        }
    } else {
        Ok((Stmt::Global(names), p))
    }
}

#[verifier::spinoff_prover]
#[verifier::rlimit(100)]
fn p_yadi(t: &Vec<Token>, p: usize) -> (r: Parsed<Stmt>)
    requires
        tokens_wf(t@),
        p < t@.len(),
    ensures
        rel_stmt(r, yadi_spec(t@, p as int)),
        res_pos(r, p as int, t@.len() as int),
    decreases t@.len() - p, 87int,
{
    match p_expr(t, p) {
        Err(e) => Err(e),
        Ok((c, q)) => match p_body(t, q) {
            Err(e) => Err(e),
            Ok((b, q1)) => if kind_at(t, q1) == TokenKind::Anyatha {
                let q2 = advance(t, q1);
                if kind_at(t, q2) == TokenKind::Yadi {
                    match p_yadi(t, advance(t, q2)) {
                        Err(e) => Err(e),
                        Ok((s, q4)) => {
                            let mut o: Vec<Stmt> = Vec::new();
                            assert(stmts_view(Seq::<Stmt>::empty()) =~= Seq::<StmtM>::empty());
                            push_stmt(&mut o, s);
                            Ok((Stmt::Yadi { condition: c, then: b, otherwise: Some(o) }, q4))
                        },
                    }
                } else {
                    match p_body(t, q2) {
                        Err(e) => Err(e),
                        Ok((o, q4)) => Ok((Stmt::Yadi { condition: c, then: b, otherwise: Some(o) }, q4)),
                    }
                }
            } else {
                Ok((Stmt::Yadi { condition: c, then: b, otherwise: None }, q1))
            },
        },
    }
}

#[verifier::spinoff_prover]
#[verifier::rlimit(60)]
fn p_bar_karo(t: &Vec<Token>, p: usize) -> (r: Parsed<Stmt>)
    requires
        tokens_wf(t@),
        p < t@.len(),
    ensures
        rel_stmt(r, bar_karo_spec(t@, p as int)),
        res_pos(r, p as int, t@.len() as int),
    decreases t@.len() - p, 80int,
{
    match p_expr(t, p) {
        Err(e) => Err(e),
        Ok((c, q)) => match expect(t, q, TokenKind::BarKaro) {
            Err(e) => Err(e),
            Ok(q1) => match p_body(t, q1) {
                Err(e) => Err(e),
                Ok((b, q2)) => Ok((Stmt::BarKaro { count: c, body: b }, q2)),
            },
        },
    }
}

#[verifier::spinoff_prover]
#[verifier::rlimit(60)]
fn p_func(t: &Vec<Token>, p: usize, pure: bool, is_static: bool) -> (r: Parsed<Stmt>)
    requires
        tokens_wf(t@),
        p < t@.len(),
    ensures
        rel_stmt(r, func_spec(t@, p as int, pure, is_static)),
        res_pos(r, p as int, t@.len() as int),
    decreases t@.len() - p, 86int,
{
    match expect_ident(t, p) {
        Err(e) => Err(e),
        Ok((name, q)) => match expect(t, q, TokenKind::LParen) {
            Err(e) => Err(e),
            Ok(q1) => match p_params(t, q1) {
                Err(e) => Err(e),
                Ok(((ps, va), q2)) => match expect(t, q2, TokenKind::RParen) {
                    Err(e) => Err(e),
                    Ok(q3) => match opt_type(t, q3, true) {
                        Err(e) => Err(e),
                        Ok((rt, q4)) => match p_body(t, q4) {
                            Err(e) => Err(e),
                            Ok((b, q5)) => {
                                let ds: Vec<Expr> = Vec::new();
                                assert(exprs_view(ds@) =~= Seq::<ExprM>::empty());
                                Ok((
                                    Stmt::Vidhi {
                                        name,
                                        params: ps,
                                        body: b,
                                        vararg: va,
                                        pure,
                                        decorators: ds,
                                        is_static,
                                        ret_type: rt,
                                    },
                                    q5,
                                ))
                            },
                        },
                    },
                },
            },
        },
    }
}

fn p_params(t: &Vec<Token>, p: usize) -> (r: Parsed<(Vec<Param>, Option<String>)>)
    requires
        tokens_wf(t@),
        p < t@.len(),
    ensures
        rel_params(r, params_spec(t@, p as int)),
        res_pos(r, p as int, t@.len() as int),
{
    if kind_at(t, p) == TokenKind::RParen {
        assert(params_view(Seq::<Param>::empty()) =~= Seq::<ParamM>::empty());
        Ok(((Vec::new(), None), p))
    } else {
        assert(params_view(Seq::<Param>::empty()) =~= Seq::<ParamM>::empty());
        p_params_loop(t, p, Vec::new())
    }
}

proof fn lemma_params_view(v: Seq<Param>)
    ensures
        params_view(v).len() == v.len(),
        forall|i: int| 0 <= i < v.len() ==> #[trigger] params_view(v)[i] == param_view(v[i]),
    decreases v.len(),
{
    if v.len() > 0 {
        lemma_params_view(v.drop_last());
        assert forall|i: int| 0 <= i < v.len() implies #[trigger] params_view(v)[i] == param_view(v[i]) by {
            if i < v.len() - 1 {
                assert(v.drop_last()[i] == v[i]);
            }
        }
    }
}

#[verifier::spinoff_prover]
#[verifier::rlimit(60)]
fn has_default(ps: &Vec<Param>) -> (b: bool)
    ensures
        b == any_default(params_view(ps@)),
{
    let mut i: usize = 0;
    while i < ps.len()
        invariant
            i <= ps@.len(),
            forall|j: int| 0 <= j < i ==> (#[trigger] ps@[j]).default is None,
        decreases ps@.len() - i,
    {
        if ps[i].default.is_some() {
            proof {
                lemma_params_view(ps@);
                assert(params_view(ps@)[i as int] == param_view(ps@[i as int]));
                assert(params_view(ps@)[i as int].default is Some);
            }
            return true;
        }
        i = i + 1;
    }
    proof {
        lemma_params_view(ps@);
    }
    assert forall|j: int| 0 <= j < params_view(ps@).len() implies !(#[trigger] params_view(ps@)[j].default is Some) by {
        assert(ps@[j].default is None);
        assert(params_view(ps@)[j] == param_view(ps@[j]));
    }
    false
}

#[verifier::spinoff_prover]
#[verifier::rlimit(60)]
fn p_params_loop(t: &Vec<Token>, p: usize, ps: Vec<Param>) -> (r: Parsed<(Vec<Param>, Option<String>)>)
    requires
        tokens_wf(t@),
        p < t@.len(),
    ensures
        rel_params(r, params_loop(t@, p as int, params_view(ps@))),
        res_pos(r, p as int, t@.len() as int),
    decreases t@.len() - p,
{
    let mut ps = ps;
    if kind_at(t, p) == TokenKind::Star {
        return match expect_ident(t, advance(t, p)) {
            Err(e) => Err(e),
            Ok((v, q)) => Ok(((ps, Some(v)), q)),
        };
    }
    match expect_ident(t, p) {
        Err(e) => Err(e),
        Ok((name, q)) => {
            let (ka, q1) = karaka_at(t, q);
            match opt_type(t, q1, false) {
                Err(e) => Err(e),
                Ok((th, q2)) => {
                    let d: Parsed<Option<Expr>> = if kind_at(t, q2) == TokenKind::Assign {
                        match default_value(t, advance(t, q2)) {
                            Err(e) => Err(e),
                            Ok((x, q3)) => Ok((Some(x), q3)),
                        }
                    } else if has_default(&ps) {
                        let mut m = "डिफ़ॉल्ट मान वाले पैरामीटर के बाद '".to_owned();
                        push_str(&mut m, name.as_str());
                        push_str(&mut m, "' का भी डिफ़ॉल्ट मान होना चाहिए ");
                        let msg = message(m.as_str(), t, q2, "", "");
                        proof {
                            reveal_strlit("");
                        }
                        assert(msg@ =~= "डिफ़ॉल्ट मान वाले पैरामीटर के बाद '"@ + name@
                            + "' का भी डिफ़ॉल्ट मान होना चाहिए "@ + line_note(t@, q2 as int));
                        Err((msg, q2))
                    } else {
                        Ok((None, q2))
                    };
                    match d {
                        Err(e) => Err(e),
                        Ok((df, q3)) => {
                            let ghost before = ps@;
                            let prm = Param { name, karaka: ka, default: df, type_hint: th };
                            let ghost pm = param_view(prm);
                            ps.push(prm);
                            assert(ps@.drop_last() =~= before);
                            assert(params_view(ps@) == params_view(before).push(pm));
                            if kind_at(t, q3) == TokenKind::Comma && p < q3 {
                                p_params_loop(t, advance(t, q3), ps)
                            } else {
                                Ok(((ps, None), q3))
                            }
                        },
                    }
                },
            }
        },
    }
}


#[verifier::spinoff_prover]
#[verifier::rlimit(60)]
fn p_varg(t: &Vec<Token>, p: usize) -> (r: Parsed<Stmt>)
    requires
        tokens_wf(t@),
        p < t@.len(),
    ensures
        rel_stmt(r, varg_spec(t@, p as int)),
        res_pos(r, p as int, t@.len() as int),
    decreases t@.len() - p, 84int,
{
    let abs = kind_at(t, p) == TokenKind::Sar;
    let p0 = if abs { advance(t, p) } else { p };
    match expect(t, p0, TokenKind::Varg) {
        Err(e) => Err(e),
        Ok(q) => match expect_ident(t, q) {
            Err(e) => Err(e),
            Ok((name, q1)) => {
                let par: Parsed<Option<String>> = if kind_at(t, q1) == TokenKind::LParen {
                    match expect_ident(t, advance(t, q1)) {
                        Err(e) => Err(e),
                        Ok((pn, q2)) => match expect(t, q2, TokenKind::RParen) {
                            Err(e) => Err(e),
                            Ok(q3) => Ok((Some(pn), q3)),
                        },
                    }
                } else {
                    Ok((None, q1))
                };
                match par {
                    Err(e) => Err(e),
                    Ok((parent, q2)) => match p_body(t, q2) {
                        Err(e) => Err(e),
                        Ok((b, q3)) => Ok((Stmt::Varg { name, parent, methods: b, is_abstract: abs }, q3)),
                    },
                }
            },
        },
    }
}

#[verifier::spinoff_prover]
#[verifier::rlimit(60)]
fn p_koshish(t: &Vec<Token>, p: usize) -> (r: Parsed<Stmt>)
    requires
        tokens_wf(t@),
        p < t@.len(),
    ensures
        rel_stmt(r, koshish_spec(t@, p as int)),
        res_pos(r, p as int, t@.len() as int),
    decreases t@.len() - p, 85int,
{
    match p_body(t, p) {
        Err(e) => Err(e),
        Ok((b, q)) => {
            let q1 = skip_newlines(t, q);
            if kind_at(t, q1) != TokenKind::Pakdo {
                let msg = message("कोशिश के बाद 'पकड़ो' अपेक्षित ", t, q1, "", "");
                proof {
                    reveal_strlit("");
                }
                assert(msg@ =~= "कोशिश के बाद 'पकड़ो' अपेक्षित "@ + line_note(t@, q1 as int));
                Err((msg, q1))
            } else {
                assert(catches_view(Seq::<CatchClause>::empty()) =~= Seq::<CatchM>::empty());
                p_catch_loop(t, q1, b, Vec::new())
            }
        },
    }
}

#[verifier::spinoff_prover]
#[verifier::rlimit(100)]
fn p_catch_loop(t: &Vec<Token>, p: usize, body: Vec<Stmt>, cl: Vec<CatchClause>) -> (r: Parsed<Stmt>)
    requires
        tokens_wf(t@),
        p < t@.len(),
    ensures
        rel_stmt(r, catch_loop(t@, p as int, stmts_view(body@), catches_view(cl@))),
        res_pos(r, p as int, t@.len() as int),
    decreases t@.len() - p, 84int,
{
    let mut cl = cl;
    if kind_at(t, p) != TokenKind::Pakdo {
        return Ok((Stmt::TryCatch { body, clauses: cl }, p));
    }
    match expect_ident(t, advance(t, p)) {
        Err(e) => Err(e),
        Ok((first, q)) => {
            let cv: Parsed<(Option<String>, String)> = if kind_at(t, q) == TokenKind::Colon {
                Ok(((None, first), q))
            } else {
                match expect_ident(t, q) {
                    Err(e) => Err(e),
                    Ok((second, q1)) => if str_eq(first.as_str(), "त्रुटि") {
                        Ok(((None, second), q1))
                    } else {
                        Ok(((Some(first), second), q1))
                    },
                }
            };
            match cv {
                Err(e) => Err(e),
                Ok(((class, var), q1)) => match p_body(t, q1) {
                    Err(e) => Err(e),
                    Ok((h, q2)) => {
                        let ghost before = cl@;
                        let c = CatchClause { class, var, body: h };
                        let ghost cm = catch_view(c);
                        cl.push(c);
                        assert(cl@.drop_last() =~= before);
                        assert(catches_view(cl@) == catches_view(before).push(cm));
                        p_catch_loop(t, skip_newlines(t, q2), body, cl)
                    },
                },
            }
        },
    }
}

fn p_field_names(t: &Vec<Token>, p: usize, acc: Vec<String>) -> (r: Parsed<Vec<String>>)
    requires
        tokens_wf(t@),
        p < t@.len(),
    ensures
        rel_names(r, field_names(t@, p as int, names_view(acc@))),
        res_pos(r, p as int, t@.len() as int),
    decreases t@.len() - p,
{
    let mut acc = acc;
    let k = kind_at(t, p);
    if k == TokenKind::RParen || k == TokenKind::Eof {
        match expect(t, p, TokenKind::RParen) {
            Err(e) => Err(e),
            Ok(q) => Ok((acc, q)),
        }
    } else {
        match expect_ident(t, p) {
            Err(e) => Err(e),
            Ok((n, q)) => {
                let q1 = if kind_at(t, q) == TokenKind::Comma { advance(t, q) } else { q };
                push_name(&mut acc, n);
                p_field_names(t, q1, acc)
            },
        }
    }
}

fn p_opt_names(t: &Vec<Token>, p: usize) -> (r: Parsed<Vec<String>>)
    requires
        tokens_wf(t@),
        p < t@.len(),
    ensures
        rel_names(r, opt_names(t@, p as int)),
        res_pos(r, p as int, t@.len() as int),
{
    assert(names_view(Seq::<String>::empty()) =~= Seq::<Seq<char>>::empty());
    if kind_at(t, p) == TokenKind::LParen {
        p_field_names(t, advance(t, p), Vec::new())
    } else {
        Ok((Vec::new(), p))
    }
}

#[verifier::spinoff_prover]
#[verifier::rlimit(60)]
fn p_vikalp(t: &Vec<Token>, p: usize) -> (r: Parsed<Stmt>)
    requires
        tokens_wf(t@),
        p < t@.len(),
    ensures
        rel_stmt(r, vikalp_spec(t@, p as int)),
        res_pos(r, p as int, t@.len() as int),
    decreases t@.len() - p, 84int,
{
    match expect_ident(t, p) {
        Err(e) => Err(e),
        Ok((name, q)) => match expect(t, q, TokenKind::Colon) {
            Err(e) => Err(e),
            Ok(q1) => {
                let q2 = skip_newlines(t, q1);
                assert(variants_view(Seq::<ViKalpVariant>::empty()) =~= Seq::<VariantM>::empty());
                if kind_at(t, q2) == TokenKind::Indent {
                    p_variant_loop(t, skip_newlines(t, advance(t, q2)), name, Vec::new())
                } else {
                    Ok((Stmt::ViKalp { name, variants: Vec::new() }, q2))
                }
            },
        },
    }
}

#[verifier::spinoff_prover]
#[verifier::rlimit(60)]
fn p_variant_loop(t: &Vec<Token>, p: usize, name: String, vs: Vec<ViKalpVariant>) -> (r: Parsed<Stmt>)
    requires
        tokens_wf(t@),
        p < t@.len(),
    ensures
        rel_stmt(r, variant_loop(t@, p as int, name@, variants_view(vs@))),
        res_pos(r, p as int, t@.len() as int),
    decreases t@.len() - p,
{
    let mut vs = vs;
    let k = kind_at(t, p);
    if k == TokenKind::Eof {
        Ok((Stmt::ViKalp { name, variants: vs }, p))
    } else if k == TokenKind::Dedent {
        Ok((Stmt::ViKalp { name, variants: vs }, advance(t, p)))
    } else {
        match expect_ident(t, p) {
            Err(e) => Err(e),
            Ok((vn, q)) => match p_opt_names(t, q) {
                Err(e) => Err(e),
                Ok((fs, q1)) => {
                    let q2 = skip_newlines(t, q1);
                    let ghost before = vs@;
                    let v = ViKalpVariant { name: vn, fields: fs };
                    let ghost vm = variant_view(v);
                    vs.push(v);
                    assert(variants_view(vs@) =~= variants_view(before).push(vm));
                    p_variant_loop(t, q2, name, vs)
                },
            },
        }
    }
}

#[verifier::spinoff_prover]
#[verifier::rlimit(60)]
fn p_milao(t: &Vec<Token>, p: usize) -> (r: Parsed<Stmt>)
    requires
        tokens_wf(t@),
        p < t@.len(),
    ensures
        rel_stmt(r, milao_spec(t@, p as int)),
        res_pos(r, p as int, t@.len() as int),
    decreases t@.len() - p, 84int,
{
    match p_expr(t, p) {
        Err(e) => Err(e),
        Ok((subj, q)) => match expect(t, q, TokenKind::Colon) {
            Err(e) => Err(e),
            Ok(q1) => {
                let q2 = skip_newlines(t, q1);
                assert(arms_view(Seq::<MilaoArm>::empty()) =~= Seq::<ArmM>::empty());
                if kind_at(t, q2) == TokenKind::Indent {
                    p_arm_loop(t, skip_newlines(t, advance(t, q2)), subj, Vec::new())
                } else {
                    Ok((Stmt::Milao { subject: subj, arms: Vec::new() }, q2))
                }
            },
        },
    }
}

#[verifier::spinoff_prover]
#[verifier::rlimit(100)]
fn p_arm_loop(t: &Vec<Token>, p: usize, subj: Expr, arms: Vec<MilaoArm>) -> (r: Parsed<Stmt>)
    requires
        tokens_wf(t@),
        p < t@.len(),
    ensures
        rel_stmt(r, arm_loop(t@, p as int, expr_view(subj), arms_view(arms@))),
        res_pos(r, p as int, t@.len() as int),
    decreases t@.len() - p, 83int,
{
    let mut arms = arms;
    let k = kind_at(t, p);
    if k == TokenKind::Eof {
        return Ok((Stmt::Milao { subject: subj, arms }, p));
    } else if k == TokenKind::Dedent {
        return Ok((Stmt::Milao { subject: subj, arms }, advance(t, p)));
    }
    let pat: Parsed<MilaoPattern> = if k == TokenKind::Anyatha {
        Ok((MilaoPattern::Wildcard, advance(t, p)))
    } else {
        match expect_ident(t, p) {
            Err(e) => Err(e),
            Ok((vn, q)) => match p_opt_names(t, q) {
                Err(e) => Err(e),
                Ok((bs, q1)) => Ok((MilaoPattern::Variant(vn, bs), q1)),
            },
        }
    };
    match pat {
        Err(e) => Err(e),
        Ok((pt, q)) => {
            let g: Parsed<Option<Expr>> = if kind_at(t, q) == TokenKind::Yadi {
                match p_expr(t, advance(t, q)) {
                    Err(e) => Err(e),
                    Ok((x, q1)) => Ok((Some(x), q1)),
                }
            } else {
                Ok((None, q))
            };
            match g {
                Err(e) => Err(e),
                Ok((guard, q1)) => match p_body(t, q1) {
                    Err(e) => Err(e),
                    Ok((b, q2)) => {
                        let ghost before = arms@;
                        let a = MilaoArm { pattern: pt, guard, body: b };
                        let ghost am = arm_view(a);
                        arms.push(a);
                        assert(arms@.drop_last() =~= before);
                        assert(arms_view(arms@) == arms_view(before).push(am));
                        p_arm_loop(t, skip_newlines(t, q2), subj, arms)
                    },
                },
            }
        },
    }
}

#[verifier::spinoff_prover]
#[verifier::rlimit(60)]
fn p_aayat(t: &Vec<Token>, p: usize) -> (r: Parsed<Stmt>)
    requires
        tokens_wf(t@),
        p < t@.len(),
    ensures
        rel_stmt(r, aayat_spec(t@, p as int)),
        res_pos(r, p as int, t@.len() as int),
{
    let tok = tok_at(t, p);
    if tok.kind == TokenKind::Str {
        let path = tok.text.clone();
        let q = advance(t, p);
        if kind_at(t, q) == TokenKind::KeRupMein {
            match expect_ident(t, advance(t, q)) {
                Err(e) => Err(e),
                Ok((a, q1)) => Ok((Stmt::AayatFileAs { path, alias: a }, q1)),
            }
        } else {
            Ok((Stmt::AayatFile(path), q))
        }
    } else {
        match expect_ident(t, p) {
            Err(e) => Err(e),
            Ok((pre, q)) => match expect(t, q, TokenKind::Dot) {
                Err(e) => Err(e),
                Ok(q1) => match expect_ident(t, q1) {
                    Err(e) => Err(e),
                    Ok((m, q2)) => {
                        let mut s = pre;
                        push_str(&mut s, ".");
                        push_str(&mut s, m.as_str());
                        Ok((Stmt::Aayat(s), q2))
                    },
                },
            },
        }
    }
}

fn p_record_fields(t: &Vec<Token>, p: usize, acc: Vec<String>) -> (r: Parsed<Vec<String>>)
    requires
        tokens_wf(t@),
        p < t@.len(),
    ensures
        rel_names(r, record_fields(t@, p as int, names_view(acc@))),
        res_pos(r, p as int, t@.len() as int),
    decreases t@.len() - p,
{
    let mut acc = acc;
    match expect_ident(t, p) {
        Err(e) => Err(e),
        Ok((n, q)) => {
            push_name(&mut acc, n);
            if kind_at(t, q) == TokenKind::Comma {
                p_record_fields(t, advance(t, q), acc)
            } else {
                Ok((acc, q))
            }
        },
    }
}

/// The class a record stands for (see `record_model`).
#[verifier::spinoff_prover]
#[verifier::rlimit(60)]
fn record_class(name: String, fs: &Vec<String>) -> (s: Stmt)
    ensures
        stmt_view(s) == record_model(name@, names_view(fs@)),
{
    let mut params: Vec<Param> = Vec::new();
    let mut body: Vec<Stmt> = Vec::new();
    let mut i: usize = 0;
    let ghost nv = names_view(fs@);
    while i < fs.len()
        invariant
            i <= fs@.len(),
            nv == names_view(fs@),
            params@.len() == i,
            body@.len() == i,
            forall|j: int| 0 <= j < i ==> (#[trigger] params@[j]).name@ == nv[j] && params@[j].karaka is None
                && params@[j].default is None && params@[j].type_hint is None,
            forall|j: int| 0 <= j < i ==> ((#[trigger] body@[j]) matches Stmt::AttrAssign { obj, field, val }
                && obj@ == "यह"@ && field@ == nv[j] && (val matches Expr::Ident(x) && x@ == nv[j])),
        decreases fs@.len() - i,
    {
        let prm = Param { name: fs[i].clone(), karaka: None, default: None, type_hint: None };
        params.push(prm);
        let st = Stmt::AttrAssign { obj: "यह".to_owned(), field: fs[i].clone(), val: Expr::Ident(fs[i].clone()) };
        body.push(st);
        i = i + 1;
    }
    proof {
        lemma_params_view(params@);
        lemma_stmts_view(body@);
        assert(params_view(params@) =~= nv.map_values(|f: Seq<char>| ParamM { name: f, karaka: None, default: None, type_hint: None }));
        assert forall|j: int| 0 <= j < body@.len() implies #[trigger] stmts_view(body@)[j] == StmtM::AttrAssign("यह"@, nv[j], ExprM::Ident(nv[j])) by {
            if let Stmt::AttrAssign { obj, field, val } = body@[j] {
                if let Expr::Ident(x) = val {
                    assert(expr_view(val) == ExprM::Ident(x@));
                }
            }
        }
        assert(stmts_view(body@) =~= nv.map_values(|f: Seq<char>| StmtM::AttrAssign("यह"@, f, ExprM::Ident(f))));
    }
    let ds: Vec<Expr> = Vec::new();
    assert(exprs_view(ds@) =~= Seq::<ExprM>::empty());
    let ctor = Stmt::Vidhi {
        name: "बनाओ".to_owned(),
        params,
        body,
        vararg: None,
        pure: false,
        decorators: ds,
        is_static: false,
        ret_type: None,
    };
    assert(stmt_view(ctor) == StmtM::Vidhi {
        name: "बनाओ"@,
        params: nv.map_values(|f: Seq<char>| ParamM { name: f, karaka: None, default: None, type_hint: None }),
        body: nv.map_values(|f: Seq<char>| StmtM::AttrAssign("यह"@, f, ExprM::Ident(f))),
        vararg: None,
        pure: false,
        decorators: seq![],
        is_static: false,
        ret_type: None,
    });
    let mut methods: Vec<Stmt> = Vec::new();
    assert(stmts_view(Seq::<Stmt>::empty()) =~= Seq::<StmtM>::empty());
    push_stmt(&mut methods, ctor);
    Stmt::Varg { name, parent: None, methods, is_abstract: false }
}

#[verifier::spinoff_prover]
#[verifier::rlimit(60)]
fn p_abhilekh(t: &Vec<Token>, p: usize) -> (r: Parsed<Stmt>)
    requires
        tokens_wf(t@),
        p < t@.len(),
    ensures
        rel_stmt(r, abhilekh_spec(t@, p as int)),
        res_pos(r, p as int, t@.len() as int),
{
    match expect_ident(t, p) {
        Err(e) => Err(e),
        Ok((name, q)) => match expect(t, q, TokenKind::LParen) {
            Err(e) => Err(e),
            Ok(q1) => {
                assert(names_view(Seq::<String>::empty()) =~= Seq::<Seq<char>>::empty());
                let fr = if kind_at(t, q1) == TokenKind::RParen {
                    Ok((Vec::new(), q1))
                } else {
                    p_record_fields(t, q1, Vec::new())
                };
                match fr {
                    Err(e) => Err(e),
                    Ok((fs, q2)) => match expect(t, q2, TokenKind::RParen) {
                        Err(e) => Err(e),
                        Ok(q3) => Ok((record_class(name, &fs), q3)),
                    },
                }
            },
        },
    }
}

#[verifier::spinoff_prover]
#[verifier::rlimit(60)]
fn p_parikshan(t: &Vec<Token>, p: usize) -> (r: Parsed<Stmt>)
    requires
        tokens_wf(t@),
        p < t@.len(),
    ensures
        rel_stmt(r, parikshan_spec(t@, p as int)),
        res_pos(r, p as int, t@.len() as int),
    decreases t@.len() - p, 84int,
{
    let p1 = advance(t, p);
    let tok = tok_at(t, p1);
    if tok.kind != TokenKind::Str {
        let msg = message("परीक्षण के बाद \"नाम\" (वाक्य) अपेक्षित ", t, p, "", "");
        proof {
            reveal_strlit("");
        }
        assert(msg@ =~= "परीक्षण के बाद \"नाम\" (वाक्य) अपेक्षित "@ + line_note(t@, p as int));
        return Err((msg, p1));
    }
    let name = tok.text.clone();
    match p_body(t, advance(t, p1)) {
        Err(e) => Err(e),
        Ok((b, q1)) => Ok((Stmt::Parikshan { name, body: b }, q1)),
    }
}

#[verifier::spinoff_prover]
#[verifier::rlimit(60)]
fn p_shuddha(t: &Vec<Token>, p: usize) -> (r: Parsed<Stmt>)
    requires
        tokens_wf(t@),
        p < t@.len(),
    ensures
        rel_stmt(r, shuddha_spec(t@, p as int)),
        res_pos(r, p as int, t@.len() as int),
    decreases t@.len() - p, 82int,
{
    let p1 = advance(t, p);
    if kind_at(t, p1) != TokenKind::Vidhi {
        let msg = message("'शुद्ध' के बाद 'विधि' अपेक्षित ", t, p1, "", "");
        proof {
            reveal_strlit("");
        }
        assert(msg@ =~= "'शुद्ध' के बाद 'विधि' अपेक्षित "@ + line_note(t@, p1 as int));
        return Err((msg, p1));
    }
    p_func(t, advance(t, p1), true, false)
}

#[verifier::spinoff_prover]
#[verifier::rlimit(60)]
fn p_deco_loop(t: &Vec<Token>, p: usize, ds: Vec<Expr>) -> (r: Parsed<Stmt>)
    requires
        tokens_wf(t@),
        p < t@.len(),
    ensures
        rel_stmt(r, deco_loop(t@, p as int, exprs_view(ds@))),
        res_pos(r, p as int, t@.len() as int),
    decreases t@.len() - p, 83int,
{
    let mut ds = ds;
    let k = kind_at(t, p);
    if k == TokenKind::At {
        match expect_ident(t, advance(t, p)) {
            Err(e) => Err(e),
            Ok((dn, q)) => {
                let d: Parsed<Expr> = if kind_at(t, q) == TokenKind::LParen {
                    match p_call_args(t, advance(t, q)) {
                        Err(e) => Err(e),
                        Ok(((a, kw), q1)) => Ok((make_call(dn, a, kw), q1)),
                    }
                } else {
                    Ok((Expr::Ident(dn), q))
                };
                match d {
                    Err(e) => Err(e),
                    Ok((deco, q1)) => {
                        let k1 = kind_at(t, q1);
                        if k1 != TokenKind::Newline && k1 != TokenKind::Eof {
                            let msg = message("सजावट '@' के बाद नई पंक्ति अपेक्षित ", t, p, "", "");
                            proof {
                                reveal_strlit("");
                            }
                            assert(msg@ =~= "सजावट '@' के बाद नई पंक्ति अपेक्षित "@ + line_note(t@, p as int));
                            return Err((msg, q1));
                        }
                        push_expr(&mut ds, deco);
                        p_deco_loop(t, skip_newlines(t, q1), ds)
                    },
                }
            },
        }
    } else {
        let f: Parsed<Stmt> = if k == TokenKind::Vidhi {
            p_func(t, advance(t, p), false, false)
        } else if k == TokenKind::Shuddha {
            p_shuddha(t, p)
        } else {
            let msg = message("सजावट '@' के बाद 'विधि' अपेक्षित ", t, p, "", "");
            proof {
                reveal_strlit("");
            }
            assert(msg@ =~= "सजावट '@' के बाद 'विधि' अपेक्षित "@ + line_note(t@, p as int));
            Err((msg, p))
        };
        match f {
            Err(e) => Err(e),
            Ok((s, q)) => Ok((
                match s {
                    Stmt::Vidhi { name, params, body, vararg, pure, decorators: _, is_static, ret_type } => Stmt::Vidhi {
                        name,
                        params,
                        body,
                        vararg,
                        pure,
                        decorators: ds,
                        is_static,
                        ret_type,
                    },
                    other => other,
                },
                q,
            )),
        }
    }
}


fn p_chain_names(t: &Vec<Token>, p: usize, names: Vec<String>) -> (r: (Vec<String>, usize))
    requires
        tokens_wf(t@),
        p < t@.len(),
    ensures
        names_view(r.0@) == chain_names(t@, p as int, names_view(names@)).0,
        r.1 == chain_names(t@, p as int, names_view(names@)).1,
        p <= r.1 < t@.len(),
    decreases t@.len() - p,
{
    let mut names = names;
    if t.len() >= 2 && p < t.len() - 2 && t[p].kind == TokenKind::Ident && t[p + 1].kind == TokenKind::Hai {
        push_name(&mut names, t[p].text.clone());
        p_chain_names(t, p + 2, names)
    } else {
        (names, p)
    }
}

fn p_comma_names(t: &Vec<Token>, p: usize, names: Vec<String>) -> (r: Parsed<Vec<String>>)
    requires
        tokens_wf(t@),
        p < t@.len(),
    ensures
        rel_names(r, comma_names(t@, p as int, names_view(names@))),
        res_pos(r, p as int, t@.len() as int),
    decreases t@.len() - p,
{
    let mut names = names;
    if p < t.len() - 1 && kind_at(t, p) == TokenKind::Comma {
        match expect_ident(t, p + 1) {
            Err(e) => Err(e),
            Ok((n, q)) => {
                push_name(&mut names, n);
                p_comma_names(t, q, names)
            },
        }
    } else {
        Ok((names, p))
    }
}

fn p_comma_values(t: &Vec<Token>, p: usize, vals: Vec<Expr>) -> (r: Parsed<Vec<Expr>>)
    requires
        tokens_wf(t@),
        p < t@.len(),
    ensures
        rel_vals(r, comma_values(t@, p as int, exprs_view(vals@))),
        res_pos(r, p as int, t@.len() as int),
    decreases t@.len() - p, 81int,
{
    let mut vals = vals;
    if kind_at(t, p) == TokenKind::Comma {
        match p_expr(t, advance(t, p)) {
            Err(e) => Err(e),
            Ok((v, q)) => {
                push_expr(&mut vals, v);
                p_comma_values(t, q, vals)
            },
        }
    } else {
        Ok((vals, p))
    }
}

#[verifier::spinoff_prover]
#[verifier::rlimit(100)]
fn p_assign(t: &Vec<Token>, p: usize, name: String, ka: Option<Karaka>, th: Option<TypeHint>) -> (r: Parsed<Stmt>)
    requires
        tokens_wf(t@),
        p < t@.len(),
    ensures
        rel_stmt(r, assign_spec(t@, p as int, name@, ka, opt_type_view(th))),
        res_pos(r, p as int, t@.len() as int),
    decreases t@.len() - p, 82int,
{
    if kind_at(t, p) == TokenKind::Ident && kind_at(t, advance(t, p)) == TokenKind::Hai {
        p_assign_chain(t, p, name, Ghost(ka), Ghost(opt_type_view(th)))
    } else {
        match p_expr(t, p) {
            Err(e) => Err(e),
            Ok((x, q)) => {
                let ghost nv = name@;
                let ghost tv = opt_type_view(th);
                let ghost xv = expr_view(x);
                let st = Stmt::Assign { name, karaka: ka, type_hint: th, value: x };
                assert(stmt_view(st) == StmtM::Assign(nv, ka, tv, xv));
                Ok((st, q))
            },
        }
    }
}

#[verifier::spinoff_prover]
#[verifier::rlimit(100)]
fn p_assign_chain(t: &Vec<Token>, p: usize, name: String, Ghost(ka): Ghost<Option<Karaka>>, Ghost(th): Ghost<Option<TypeModel>>) -> (r: Parsed<Stmt>)
    requires
        tokens_wf(t@),
        p < t@.len(),
        kd(t@, p as int) == TokenKind::Ident,
        kd(t@, adv(t@, p as int)) == TokenKind::Hai,
    ensures
        rel_stmt(r, assign_spec(t@, p as int, name@, ka, th)),
        res_pos(r, p as int, t@.len() as int),
    decreases t@.len() - p, 81int,
{
    let mut first: Vec<String> = Vec::new();
    assert(names_view(Seq::<String>::empty()) =~= Seq::<Seq<char>>::empty());
    push_name(&mut first, name);
    let (names, q) = p_chain_names(t, p, first);
    match p_expr(t, q) {
        Err(e) => Err(e),
        Ok((x, q2)) => {
            let ghost nv = names_view(names@);
            let ghost xv = expr_view(x);
            let st = Stmt::ChainAssign { names, value: x };
            assert(stmt_view(st) == StmtM::ChainAssign(nv, xv));
            Ok((st, q2))
        },
    }
}

proof fn lemma_names_view_len(v: Seq<String>)
    ensures
        names_view(v).len() == v.len(),
{
}

#[verifier::spinoff_prover]
#[verifier::rlimit(60)]
fn p_multi(t: &Vec<Token>, p: usize, name: String) -> (r: Parsed<Stmt>)
    requires
        tokens_wf(t@),
        p < t@.len(),
    ensures
        rel_stmt(r, multi_spec(t@, p as int, name@)),
        res_pos(r, p as int, t@.len() as int),
    decreases t@.len() - p, 82int,
{
    let mut first: Vec<String> = Vec::new();
    assert(names_view(Seq::<String>::empty()) =~= Seq::<Seq<char>>::empty());
    push_name(&mut first, name);
    match p_comma_names(t, p, first) {
        Err(e) => Err(e),
        Ok((names, q)) => match expect(t, q, TokenKind::Hai) {
            Err(e) => Err(e),
            Ok(q1) => match p_expr(t, q1) {
                Err(e) => Err(e),
                Ok((v, q2)) => {
                    let mut vs: Vec<Expr> = Vec::new();
                    assert(exprs_view(Seq::<Expr>::empty()) =~= Seq::<ExprM>::empty());
                    push_expr(&mut vs, v);
                    match p_comma_values(t, q2, vs) {
                        Err(e) => Err(e),
                        Ok((vals, q3)) => {
                            proof {
                                lemma_exprs_view(vals@);
                                lemma_names_view_len(names@);
                            }
                            if vals.len() != 1 && vals.len() != names.len() {
                                let mut m = "बाएँ ".to_owned();
                                let a = decimal(names.len() as u64);
                                let sa = chars_to_string(a.as_slice());
                                push_str(&mut m, sa.as_str());
                                push_str(&mut m, " नाम हैं पर दाएँ ");
                                let b = decimal(vals.len() as u64);
                                let sb = chars_to_string(b.as_slice());
                                push_str(&mut m, sb.as_str());
                                push_str(&mut m, " मान ");
                                let msg = message(m.as_str(), t, q, "", "");
                                proof {
                                    reveal_strlit("");
                                }
                                assert(msg@ =~= "बाएँ "@ + decimal_spec(names_view(names@).len()) + " नाम हैं पर दाएँ "@
                                    + decimal_spec(exprs_view(vals@).len()) + " मान "@ + line_note(t@, q as int));
                                Err((msg, q3))
                            } else {
                                Ok((Stmt::MultiAssign { names, values: vals }, q3))
                            }
                        },
                    }
                },
            },
        },
    }
}

#[verifier::spinoff_prover]
#[verifier::rlimit(60)]
fn p_index_stmt(t: &Vec<Token>, p: usize, name: String) -> (r: Parsed<Stmt>)
    requires
        tokens_wf(t@),
        p < t@.len(),
    ensures
        rel_stmt(r, index_stmt(t@, p as int, name@)),
        res_pos(r, p as int, t@.len() as int),
    decreases t@.len() - p, 82int,
{
    let n2 = name.clone();
    match p_bracket(t, p, Expr::Ident(n2)) {
        Err(e) => Err(e),
        Ok((x, q)) => if kind_at(t, q) == TokenKind::Hai {
            let q1 = advance(t, q);
            match x {
                Expr::Index { obj: _, idx } => match p_expr(t, q1) {
                    Err(e) => Err(e),
                    Ok((v, q2)) => Ok((Stmt::IndexAssign { obj: name, idx: *idx, val: v }, q2)),
                },
                Expr::Slice { obj: _, start, end, step } => match p_expr(t, q1) {
                    Err(e) => Err(e),
                    Ok((v, q2)) => Ok((
                        Stmt::SliceAssign { obj: name, start: unboxed(start), end: unboxed(end), step: unboxed(step), val: v },
                        q2,
                    )),
                },
                _ => Err((stuck_error(t, p), p)),
            }
        } else {
            Ok((Stmt::ExprStmt(x), q))
        },
    }
}

fn unboxed(o: Option<Box<Expr>>) -> (r: Option<Expr>)
    ensures
        opt_expr_view(r) == match o {
            Some(b) => Some(expr_view(*b)),
            None => None::<ExprM>,
        },
{
    match o {
        Some(b) => Some(*b),
        None => None,
    }
}

#[verifier::spinoff_prover]
#[verifier::rlimit(60)]
fn p_dot_stmt(t: &Vec<Token>, p: usize, name: String) -> (r: Parsed<Stmt>)
    requires
        tokens_wf(t@),
        p < t@.len(),
    ensures
        rel_stmt(r, dot_stmt(t@, p as int, name@)),
        res_pos(r, p as int, t@.len() as int),
    decreases t@.len() - p, 82int,
{
    match expect_field(t, p) {
        Err(e) => Err(e),
        Ok((f, q)) => if kind_at(t, q) == TokenKind::Hai {
            match p_expr(t, advance(t, q)) {
                Err(e) => Err(e),
                Ok((v, q2)) => Ok((Stmt::AttrAssign { obj: name, field: f, val: v }, q2)),
            }
        } else {
            match p_member(t, p, Expr::Ident(name)) {
                Err(e) => Err(e),
                Ok((x, q1)) => Ok((Stmt::ExprStmt(x), q1)),
            }
        },
    }
}

#[verifier::spinoff_prover]
#[verifier::rlimit(100)]
fn p_ident_lead(t: &Vec<Token>, p: usize) -> (r: Parsed<Stmt>)
    requires
        tokens_wf(t@),
        p < t@.len(),
    ensures
        rel_stmt(r, ident_lead_spec(t@, p as int)),
        res_pos(r, p as int, t@.len() as int),
    decreases t@.len() - p, 85int,
{
    match expect_ident(t, p) {
        Err(e) => Err(e),
        Ok((name, q)) => {
            let (ka, q1) = karaka_at(t, q);
            match opt_type(t, q1, false) {
                Err(e) => Err(e),
                Ok((th, q2)) => {
                    let k = kind_at(t, q2);
                    if k == TokenKind::Comma {
                        p_multi(t, q2, name)
                    } else if !(k == TokenKind::Hai || k == TokenKind::LParen || k == TokenKind::KeeLiye || k == TokenKind::LBracket
                        || k == TokenKind::Dot) {
                        let ghost nv = name@;
                        let e = Expr::Ident(name);
                        assert(expr_view(e) == ExprM::Ident(nv));
                        Ok((Stmt::ExprStmt(e), q2))
                    } else {
                        let q3 = advance(t, q2);
                        if k == TokenKind::Hai {
                            p_assign(t, q3, name, ka, th)
                        } else if k == TokenKind::LParen {
                            match p_call_args(t, q3) {
                                Err(e) => Err(e),
                                Ok(((a, kw), q4)) => {
                                    let ghost nv = name@;
                                    let ghost av = exprs_view(a@);
                                    let ghost kv = kw_view(kw@);
                                    let e = make_call(name, a, kw);
                                    assert(expr_view(e) == call_model(nv, av, kv));
                                    Ok((Stmt::ExprStmt(e), q4))
                                },
                            }
                        } else if k == TokenKind::KeeLiye {
                            match p_expr(t, q3) {
                                Err(e) => Err(e),
                                Ok((it, q4)) => match expect(t, q4, TokenKind::Mein) {
                                    Err(e) => Err(e),
                                    Ok(q5) => match p_body(t, q5) {
                                        Err(e) => Err(e),
                                        Ok((b, q6)) => Ok((Stmt::KeeLiye { var: name, iter: it, body: b }, q6)),
                                    },
                                },
                            }
                        } else if k == TokenKind::LBracket {
                            p_index_stmt(t, q3, name)
                        } else {
                            p_dot_stmt(t, q3, name)
                        }
                    }
                },
            }
        },
    }
}

// ── Programs (exec) ───────────────────────────────────────────────────────────

#[verifier::spinoff_prover]
#[verifier::rlimit(100)]
fn p_prog(t: &Vec<Token>, p: usize, acc: Vec<Stmt>) -> (r: Result<Vec<Stmt>, (String, usize)>)
    requires
        tokens_wf(t@),
        p < t@.len(),
    ensures
        match prog_loop(t@, p as int, stmts_view(acc@)) {
            Ok((v, _)) => r matches Ok(x) && stmts_view(x@) == v,
            Err((e, q)) => r matches Err((m, q2)) && m@ == e && q2 == q,
        },
    decreases t@.len() - p,
{
    let mut acc = acc;
    if kind_at(t, p) == TokenKind::Eof {
        return Ok(acc);
    }
    match p_stmt(t, p) {
        Err(e) => Err(e),
        Ok((s, q)) => {
            if q <= p {
                return Err((stuck_error(t, p), q));
            }
            push_stmt(&mut acc, s);
            p_prog(t, skip_newlines(t, q), acc)
        },
    }
}

/// The statements of a program (see `parse_spec`); the token list ends with
/// `Eof`.
pub fn parse(tokens: Vec<Token>) -> (r: Result<Vec<Stmt>, String>)
    requires
        tokens_wf(tokens@),
    ensures
        match parse_spec(tokens@) {
            Ok(p) => r matches Ok(v) && stmts_view(v@) == p,
            Err(e) => r matches Err(m) && m@ == e,
        },
{
    let p = skip_newlines(&tokens, 0);
    assert(stmts_view(Seq::<Stmt>::empty()) =~= Seq::<StmtM>::empty());
    match p_prog(&tokens, p, Vec::new()) {
        Ok(v) => Ok(v),
        Err((e, _)) => Err(e),
    }
}


// ── Recovery ──────────────────────────────────────────────────────────────────

/// Where reading resumes after an error at `p`: the next line break or
/// `DEDENT` outside any brackets or indented block opened since, or the end.
pub open spec fn sync_from(t: Seq<Token>, p: int, depth: int) -> int
    decreases t.len() - p,
{
    if !(0 <= p < t.len() - 1) {
        p
    } else {
        let k = kd(t, p);
        if k == TokenKind::Eof {
            p
        } else if (k == TokenKind::Newline || k == TokenKind::Dedent) && depth <= 0 {
            p
        } else {
            let d = if k == TokenKind::Indent || k == TokenKind::LParen || k == TokenKind::LBracket || k == TokenKind::LBrace {
                depth + 1
            } else if k == TokenKind::Dedent || k == TokenKind::RParen || k == TokenKind::RBracket || k == TokenKind::RBrace {
                depth - 1
            } else {
                depth
            };
            sync_from(t, p + 1, d)
        }
    }
}

pub proof fn lemma_sync_from(t: Seq<Token>, p: int, depth: int)
    requires
        0 <= p < t.len(),
    ensures
        p <= sync_from(t, p, depth) < t.len(),
    decreases t.len() - p,
{
    if 0 <= p < t.len() - 1 {
        let k = kd(t, p);
        if !(k == TokenKind::Eof || ((k == TokenKind::Newline || k == TokenKind::Dedent) && depth <= 0)) {
            let d = if k == TokenKind::Indent || k == TokenKind::LParen || k == TokenKind::LBracket || k == TokenKind::LBrace {
                depth + 1
            } else if k == TokenKind::Dedent || k == TokenKind::RParen || k == TokenKind::RBracket || k == TokenKind::RBrace {
                depth - 1
            } else {
                depth
            };
            lemma_sync_from(t, p + 1, d);
        }
    }
}

/// Reading statements from `p` on, each error noted and reading resumed
/// after it (see `sync_from`): the statements read and the errors, in order.
pub open spec fn recover_spec(t: Seq<Token>, p: int, stmts: Seq<StmtM>, errs: Seq<Seq<char>>) -> (Seq<StmtM>, Seq<Seq<char>>)
    decreases t.len() - p,
{
    if !(0 <= p < t.len()) || !tokens_wf(t) {
        (stmts, errs)
    } else if kd(t, p) == TokenKind::Eof {
        (stmts, errs)
    } else {
        match stmt_spec(t, p) {
            Ok((s, q)) => if q <= p || q >= t.len() {
                (stmts, errs.push(stuck(t, p)))
            } else {
                proof {
                    lemma_skip_nl(t, q);
                }
                recover_spec(t, skip_nl(t, q), stmts.push(s), errs)
            },
            Err((e, q)) => {
                let q1 = if 0 <= q < t.len() { sync_from(t, q, 0) } else { q };
                if q1 <= p || q1 >= t.len() {
                    (stmts, errs.push(e))
                } else {
                    proof {
                        lemma_skip_nl(t, q1);
                    }
                    recover_spec(t, skip_nl(t, q1), stmts, errs.push(e))
                }
            },
        }
    }
}

/// The statements read and the errors met when every statement that fails
/// is skipped (see `recover_spec`).
pub open spec fn parse_recover_spec(t: Seq<Token>) -> (Seq<StmtM>, Seq<Seq<char>>) {
    recover_spec(t, skip_nl(t, 0), seq![], seq![])
}

fn sync(t: &Vec<Token>, p: usize) -> (q: usize)
    requires
        tokens_wf(t@),
        p < t@.len(),
    ensures
        q == sync_from(t@, p as int, 0),
{
    let mut i = p;
    let mut opened: usize = 0;
    let mut closed: usize = 0;
    while i < t.len() - 1
        invariant
            tokens_wf(t@),
            p <= i < t@.len(),
            opened + closed <= i - p,
            sync_from(t@, i as int, opened - closed) == sync_from(t@, p as int, 0),
        decreases t@.len() - i,
    {
        let k = t[i].kind;
        if k == TokenKind::Eof || ((k == TokenKind::Newline || k == TokenKind::Dedent) && opened <= closed) {
            return i;
        }
        if k == TokenKind::Indent || k == TokenKind::LParen || k == TokenKind::LBracket || k == TokenKind::LBrace {
            opened = opened + 1;
        } else if k == TokenKind::Dedent || k == TokenKind::RParen || k == TokenKind::RBracket || k == TokenKind::RBrace {
            closed = closed + 1;
        }
        i = i + 1;
    }
    i
}

pub open spec fn strings_view(v: Seq<String>) -> Seq<Seq<char>> {
    v.map_values(|s: String| s@)
}

#[verifier::spinoff_prover]
#[verifier::rlimit(100)]
fn p_recover(t: &Vec<Token>, p: usize, stmts: Vec<Stmt>, errs: Vec<String>) -> (r: (Vec<Stmt>, Vec<String>))
    requires
        tokens_wf(t@),
        p < t@.len(),
    ensures
        stmts_view(r.0@) == recover_spec(t@, p as int, stmts_view(stmts@), strings_view(errs@)).0,
        strings_view(r.1@) == recover_spec(t@, p as int, stmts_view(stmts@), strings_view(errs@)).1,
    decreases t@.len() - p,
{
    let mut stmts = stmts;
    let mut errs = errs;
    if kind_at(t, p) == TokenKind::Eof {
        return (stmts, errs);
    }
    match p_stmt(t, p) {
        Ok((s, q)) => {
            if q <= p {
                let ghost before = errs@;
                let m = stuck_error(t, p);
                errs.push(m);
                assert(strings_view(errs@) =~= strings_view(before).push(stuck(t@, p as int)));
                return (stmts, errs);
            }
            push_stmt(&mut stmts, s);
            p_recover(t, skip_newlines(t, q), stmts, errs)
        },
        Err((e, q)) => {
            let ghost before = errs@;
            let ghost ev = e@;
            errs.push(e);
            assert(strings_view(errs@) =~= strings_view(before).push(ev));
            let q1 = sync(t, q);
            proof {
                lemma_sync_from(t@, q as int, 0);
            }
            if q1 <= p {
                return (stmts, errs);
            }
            p_recover(t, skip_newlines(t, q1), stmts, errs)
        },
    }
}

/// The statements that read, and an error message for each statement that
/// does not (reading resumes after it; see `parse_recover_spec`).
pub fn parse_recover(tokens: Vec<Token>) -> (r: (Vec<Stmt>, Vec<String>))
    requires
        tokens_wf(tokens@),
    ensures
        stmts_view(r.0@) == parse_recover_spec(tokens@).0,
        strings_view(r.1@) == parse_recover_spec(tokens@).1,
        parse_spec(tokens@) matches Ok(v) ==> stmts_view(r.0@) == v && r.1@.len() == 0,
{
    let p = skip_newlines(&tokens, 0);
    assert(stmts_view(Seq::<Stmt>::empty()) =~= Seq::<StmtM>::empty());
    assert(strings_view(Seq::<String>::empty()) =~= Seq::<Seq<char>>::empty());
    let r = p_recover(&tokens, p, Vec::new(), Vec::new());
    proof {
        law_recover_agrees_with_parse(tokens@);
        assert(strings_view(r.1@).len() == r.1@.len());
    }
    r
}

// ── Laws ──────────────────────────────────────────────────────────────────────

/// What an operator token means, whatever level reads it.
pub open spec fn token_binop(k: TokenKind) -> Option<BinOp> {
    match k {
        TokenKind::Ya => Some(BinOp::Or),
        TokenKind::Aur => Some(BinOp::And),
        TokenKind::BitOr => Some(BinOp::BitOr),
        TokenKind::BitXor => Some(BinOp::BitXor),
        TokenKind::BitAnd => Some(BinOp::BitAnd),
        TokenKind::LShift => Some(BinOp::LShift),
        TokenKind::RShift => Some(BinOp::RShift),
        TokenKind::Plus => Some(BinOp::Add),
        TokenKind::Minus => Some(BinOp::Sub),
        TokenKind::Star => Some(BinOp::Mul),
        TokenKind::Slash => Some(BinOp::Div),
        TokenKind::SlashSlash => Some(BinOp::FloorDiv),
        TokenKind::Percent => Some(BinOp::Mod),
        _ => None,
    }
}

/// How tightly an operator token binds: 1 for `* / // %`, 2 for `+ -`,
/// 3 for shifts, 5 `&`, 6 `^`, 7 `|`, 8 `और`, 9 `या`.
pub open spec fn token_precedence(k: TokenKind) -> nat {
    match k {
        TokenKind::Ya => 9,
        TokenKind::Aur => 8,
        TokenKind::BitOr => 7,
        TokenKind::BitXor => 6,
        TokenKind::BitAnd => 5,
        TokenKind::LShift | TokenKind::RShift => 3,
        TokenKind::Plus | TokenKind::Minus => 2,
        _ => 1,
    }
}

/// What a comparison token means.
pub open spec fn token_cmpop(k: TokenKind) -> Option<CmpOp> {
    match k {
        TokenKind::Lt => Some(CmpOp::Lt),
        TokenKind::Gt => Some(CmpOp::Gt),
        TokenKind::LtEq => Some(CmpOp::LtEq),
        TokenKind::GtEq => Some(CmpOp::GtEq),
        TokenKind::EqEq | TokenKind::Barabar => Some(CmpOp::Eq),
        TokenKind::NotEq => Some(CmpOp::NotEq),
        TokenKind::SeAdhik => Some(CmpOp::SeAdhik),
        TokenKind::SeKam => Some(CmpOp::SeKam),
        _ => None,
    }
}

/// A single comparison `a op b` compares the expression before the token
/// with the operand after it by the comparison the token stands for.
pub proof fn law_comparison_token_meaning(t: Seq<Token>, q: int, left: ExprM, right: ExprM, r: int)
    requires
        tokens_wf(t),
        0 <= q < t.len(),
        token_cmpop(kd(t, q)) is Some,
        bin_spec(t, q + 1, 3) == Ok::<(ExprM, int), (Seq<char>, int)>((right, r)),
        q + 1 <= r < t.len(),
        token_cmpop(kd(t, r)) is None,
    ensures
        compare_chain(t, q, left, None) == Ok::<(ExprM, int), (Seq<char>, int)>((
            ExprM::Compare(Box::new(left), token_cmpop(kd(t, q)).unwrap(), Box::new(right)),
            r,
        )),
{
    assert(q < t.len() - 1);
    assert(compare_op(kd(t, q)) == token_cmpop(kd(t, q)));
    assert(compare_op(kd(t, r)) == token_cmpop(kd(t, r)));
    let cx = ExprM::Compare(Box::new(left), token_cmpop(kd(t, q)).unwrap(), Box::new(right));
    assert(compare_chain(t, r, right, Some(cx)) == Ok::<(ExprM, int), (Seq<char>, int)>((cx, r)));
}

/// A prefix `-x` is `0 - x`, `~x` is a bit inversion and `नहीं x` a negation
/// of what follows.
pub proof fn law_prefix_operators(t: Seq<Token>, p: int, x: ExprM, q: int)
    requires
        tokens_wf(t),
        0 <= p < t.len(),
        kd(t, p) == TokenKind::Minus || kd(t, p) == TokenKind::BitNot || kd(t, p) == TokenKind::Nahin,
        (if kd(t, p) == TokenKind::Nahin { unary_spec(t, p + 1) } else { primary_spec(t, p + 1) })
            == Ok::<(ExprM, int), (Seq<char>, int)>((x, q)),
    ensures
        kd(t, p) == TokenKind::Minus ==> unary_spec(t, p) == Ok::<(ExprM, int), (Seq<char>, int)>((
            ExprM::Binary(Box::new(ExprM::Number(0)), BinOp::Sub, Box::new(x)), q)),
        kd(t, p) == TokenKind::BitNot ==> unary_spec(t, p) == Ok::<(ExprM, int), (Seq<char>, int)>((ExprM::BitNot(Box::new(x)), q)),
        kd(t, p) == TokenKind::Nahin ==> unary_spec(t, p) == Ok::<(ExprM, int), (Seq<char>, int)>((ExprM::Not(Box::new(x)), q)),
{
    assert(p < t.len() - 1);
    assert(adv(t, p) == p + 1);
}

proof fn lemma_level_op_meaning(lvl: nat, k: TokenKind)
    ensures
        level_op(lvl, k) == (if token_binop(k) is Some && token_precedence(k) == lvl { token_binop(k) } else { None }),
{
}

/// An operator token joins the expression before it and the operand after
/// it by the operator the token stands for: `a % b` is a remainder, `a // b`
/// a floor division, `a - b` a subtraction, and so on for every operator of
/// every level, when no operator of the same level follows the operand.
pub proof fn law_operator_token_meaning(t: Seq<Token>, q: int, lvl: nat, left: ExprM, right: ExprM, r: int)
    requires
        tokens_wf(t),
        0 <= q < t.len(),
        token_binop(kd(t, q)) is Some,
        token_precedence(kd(t, q)) == lvl,
        operand_spec(t, q + 1, lvl) == Ok::<(ExprM, int), (Seq<char>, int)>((right, r)),
        q + 1 <= r < t.len(),
        !(token_binop(kd(t, r)) is Some && token_precedence(kd(t, r)) == lvl),
    ensures
        bin_rest(t, q, lvl, left) == Ok::<(ExprM, int), (Seq<char>, int)>((
            ExprM::Binary(Box::new(left), token_binop(kd(t, q)).unwrap(), Box::new(right)),
            r,
        )),
{
    lemma_level_op_meaning(lvl, kd(t, q));
    lemma_level_op_meaning(lvl, kd(t, r));
    assert(q < t.len() - 1);
    assert(adv(t, q) == q + 1);
    let b = ExprM::Binary(Box::new(left), token_binop(kd(t, q)).unwrap(), Box::new(right));
    assert(bin_rest(t, r, lvl, b) == Ok::<(ExprM, int), (Seq<char>, int)>((b, r)));
}

proof fn lemma_recover_grows(t: Seq<Token>, p: int, stmts: Seq<StmtM>, errs: Seq<Seq<char>>)
    ensures
        recover_spec(t, p, stmts, errs).1.len() >= errs.len(),
        forall|i: int| 0 <= i < errs.len() ==> #[trigger] recover_spec(t, p, stmts, errs).1[i] == errs[i],
    decreases t.len() - p,
{
    if 0 <= p < t.len() && tokens_wf(t) && kd(t, p) != TokenKind::Eof {
        match stmt_spec(t, p) {
            Ok((s, q)) => if !(q <= p || q >= t.len()) {
                lemma_skip_nl(t, q);
                lemma_recover_grows(t, skip_nl(t, q), stmts.push(s), errs);
            },
            Err((e, q)) => {
                let q1 = if 0 <= q < t.len() { sync_from(t, q, 0) } else { q };
                if !(q1 <= p || q1 >= t.len()) {
                    lemma_skip_nl(t, q1);
                    lemma_recover_grows(t, skip_nl(t, q1), stmts, errs.push(e));
                    let r = recover_spec(t, skip_nl(t, q1), stmts, errs.push(e)).1;
                    assert forall|i: int| 0 <= i < errs.len() implies #[trigger] r[i] == errs[i] by {
                        assert(errs.push(e)[i] == errs[i]);
                    }
                }
            },
        }
    }
}

proof fn lemma_recover_agrees(t: Seq<Token>, p: int, acc: Seq<StmtM>, errs: Seq<Seq<char>>)
    requires
        tokens_wf(t),
        0 <= p < t.len(),
    ensures
        prog_loop(t, p, acc) matches Ok((v, _)) ==> recover_spec(t, p, acc, errs) == (v, errs),
        prog_loop(t, p, acc) matches Err((e, _)) ==> recover_spec(t, p, acc, errs).1.len() > errs.len()
            && recover_spec(t, p, acc, errs).1[errs.len() as int] == e,
    decreases t.len() - p,
{
    if kd(t, p) != TokenKind::Eof {
        match stmt_spec(t, p) {
            Ok((s, q)) => if !(q <= p || q >= t.len()) {
                lemma_skip_nl(t, q);
                lemma_recover_agrees(t, skip_nl(t, q), acc.push(s), errs);
            },
            Err((e, q)) => {
                let q1 = if 0 <= q < t.len() { sync_from(t, q, 0) } else { q };
                if !(q1 <= p || q1 >= t.len()) {
                    lemma_skip_nl(t, q1);
                    lemma_recover_grows(t, skip_nl(t, q1), acc, errs.push(e));
                    assert(errs.push(e)[errs.len() as int] == e);
                }
            },
        }
    }
}

/// Recovery changes nothing on a program that parses: `parse_recover`
/// gives the same statements and no error; on one that does not, its first
/// error is the one `parse` reports.
pub proof fn law_recover_agrees_with_parse(t: Seq<Token>)
    requires
        tokens_wf(t),
    ensures
        parse_spec(t) matches Ok(v) ==> parse_recover_spec(t) == (v, Seq::<Seq<char>>::empty()),
        parse_spec(t) matches Err(e) ==> parse_recover_spec(t).1.len() > 0 && parse_recover_spec(t).1[0] == e,
{
    lemma_skip_nl(t, 0);
    lemma_recover_agrees(t, skip_nl(t, 0), seq![], seq![]);
}

proof fn lemma_prog_located(t: Seq<Token>, p: int, acc: Seq<StmtM>)
    requires
        tokens_wf(t),
        0 <= p < t.len(),
        forall|i: int| 0 <= i < acc.len() ==> #[trigger] acc[i] is Located,
    ensures
        prog_loop(t, p, acc) matches Ok((v, _)) ==> forall|i: int| 0 <= i < v.len() ==> #[trigger] v[i] is Located,
    decreases t.len() - p,
{
    if kd(t, p) != TokenKind::Eof {
        match stmt_spec(t, p) {
            Ok((s, q)) => if later(t, p, q, true) {
                lemma_skip_nl(t, q);
                let a2 = acc.push(s);
                assert forall|i: int| 0 <= i < a2.len() implies #[trigger] a2[i] is Located by {
                    if i < acc.len() {
                        assert(a2[i] == acc[i]);
                    }
                }
                lemma_prog_located(t, skip_nl(t, q), a2);
            },
            Err(_) => {},
        }
    }
}

/// Every top-level statement of a parsed program carries its source line:
/// it is `Located`, with the line of its first token.
pub proof fn law_statements_located(t: Seq<Token>)
    requires
        tokens_wf(t),
    ensures
        parse_spec(t) matches Ok(v) ==> forall|i: int| 0 <= i < v.len() ==> #[trigger] v[i] is Located,
{
    lemma_skip_nl(t, 0);
    lemma_prog_located(t, skip_nl(t, 0), seq![]);
}

/// A statement read at `p` is marked with the line of the token at `p`.
pub proof fn law_statement_line(t: Seq<Token>, p: int)
    requires
        tokens_wf(t),
        0 <= p < t.len(),
    ensures
        stmt_spec(t, p) matches Ok((s, _)) ==> (s matches StmtM::Located(l, _) && l == at(t, p).line),
{
}

} // verus!
