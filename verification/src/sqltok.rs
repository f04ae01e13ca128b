//! The tokenizer of the SQL subset that भारत.संग्रह runs: words, quoted
//! strings (`''` for a quote), numbers (kept as their text) and the symbols
//! `( ) , * = != <> < > <= >=`; whitespace and `;` separate tokens.

use vstd::prelude::*;
use crate::text::{str_chars, is_whitespace, is_whitespace_spec, is_ascii_digit_spec, push_char};
use crate::tomlparse::string_of;

verus! {

/// A token as a mathematical value.
pub enum SqlTok {
    Word(Seq<char>),
    Str(Seq<char>),
    Num(Seq<char>),
    Sym(Seq<char>),
}

/// A token: a word (keyword or name, as written), a string literal's
/// content, a number's text, or a symbol.
#[derive(Debug)]
pub enum SqlToken {
    Word(String),
    Str(String),
    Num(String),
    Sym(String),
}

pub open spec fn tok_view(t: SqlToken) -> SqlTok {
    match t {
        SqlToken::Word(s) => SqlTok::Word(s@),
        SqlToken::Str(s) => SqlTok::Str(s@),
        SqlToken::Num(s) => SqlTok::Num(s@),
        SqlToken::Sym(s) => SqlTok::Sym(s@),
    }
}

pub open spec fn toks_view(v: Seq<SqlToken>) -> Seq<SqlTok> {
    v.map_values(|t: SqlToken| tok_view(t))
}

/// How reading ends: at the end of the text, inside a string literal that
/// is never closed, or at a `!` not followed by `=` (where no token can be
/// read and reading does not go on).
#[derive(Debug, PartialEq, Eq, Structural)]
pub enum SqlEnd {
    Done,
    Unterminated,
    Stuck,
}

/// A string literal's content from `j` on and the position after its
/// closing quote; `None` when it is not closed.
pub open spec fn lit_end(s: Seq<char>, j: int, buf: Seq<char>) -> Option<(Seq<char>, int)>
    decreases s.len() - j,
{
    if j < 0 || j >= s.len() {
        None
    } else if s[j] == '\'' {
        if j + 1 < s.len() && s[j + 1] == '\'' {
            lit_end(s, j + 2, buf.push('\''))
        } else {
            Some((buf, j + 1))
        }
    } else {
        lit_end(s, j + 1, buf.push(s[j]))
    }
}

/// The end of a run of digits and `.` from `j`.
pub open spec fn num_end(s: Seq<char>, j: int) -> int
    decreases s.len() - j,
{
    if 0 <= j < s.len() && (is_ascii_digit_spec(s[j]) || s[j] == '.') {
        num_end(s, j + 1)
    } else {
        j
    }
}

/// The characters that end a word.
pub open spec fn stops_word(c: char) -> bool {
    is_whitespace_spec(c) || c == '(' || c == ')' || c == ';' || c == ',' || c == '*' || c == '=' || c == '\''
        || c == '!' || c == '<' || c == '>'
}

/// The end of a word from `j`.
pub open spec fn word_end(s: Seq<char>, j: int) -> int
    decreases s.len() - j,
{
    if 0 <= j < s.len() && !stops_word(s[j]) {
        word_end(s, j + 1)
    } else {
        j
    }
}

pub open spec fn prepend(t: SqlTok, r: (Seq<SqlTok>, SqlEnd)) -> (Seq<SqlTok>, SqlEnd) {
    (seq![t] + r.0, r.1)
}

pub proof fn lemma_num_end(s: Seq<char>, j: int)
    requires
        0 <= j <= s.len(),
    ensures
        j <= num_end(s, j) <= s.len(),
    decreases s.len() - j,
{
    if j < s.len() && (is_ascii_digit_spec(s[j]) || s[j] == '.') {
        lemma_num_end(s, j + 1);
    }
}

pub proof fn lemma_word_end(s: Seq<char>, j: int)
    requires
        0 <= j <= s.len(),
    ensures
        j <= word_end(s, j) <= s.len(),
    decreases s.len() - j,
{
    if j < s.len() && !stops_word(s[j]) {
        lemma_word_end(s, j + 1);
    }
}

pub proof fn lemma_lit_end(s: Seq<char>, j: int, buf: Seq<char>)
    requires
        0 <= j,
    ensures
        lit_end(s, j, buf) matches Some((_b, k)) ==> j < k <= s.len(),
    decreases s.len() - j,
{
    if j < s.len() {
        if s[j] == '\'' {
            if j + 1 < s.len() && s[j + 1] == '\'' {
                lemma_lit_end(s, j + 2, buf.push('\''));
            }
        } else {
            lemma_lit_end(s, j + 1, buf.push(s[j]));
        }
    }
}

/// The tokens from `i` on; `sym_last` says that no token came before or the
/// last one was a symbol (only then can a `-` start a number).
pub open spec fn sql_tokens(s: Seq<char>, i: int, sym_last: bool) -> (Seq<SqlTok>, SqlEnd)
    decreases s.len() - i,
{
    if i < 0 || i >= s.len() {
        (seq![], SqlEnd::Done)
    } else {
        let c = s[i];
        if is_whitespace_spec(c) || c == ';' {
            sql_tokens(s, i + 1, sym_last)
        } else if c == '\'' {
            proof {
                lemma_lit_end(s, i + 1, seq![]);
            }
            match lit_end(s, i + 1, seq![]) {
                None => (seq![], SqlEnd::Unterminated),
                Some((b, j)) => prepend(SqlTok::Str(b), sql_tokens(s, j, false)),
            }
        } else if is_ascii_digit_spec(c) || (c == '-' && i + 1 < s.len() && is_ascii_digit_spec(s[i + 1]) && sym_last) {
            let j = num_end(s, if c == '-' { i + 1 } else { i });
            proof {
                lemma_num_end(s, if c == '-' { i + 1 } else { i });
            }
            if j <= i {
                (seq![], SqlEnd::Done)
            } else {
                prepend(SqlTok::Num(s.subrange(i, j)), sql_tokens(s, j, false))
            }
        } else if c == '(' || c == ')' || c == ',' || c == '*' {
            prepend(SqlTok::Sym(seq![c]), sql_tokens(s, i + 1, true))
        } else if c == '=' {
            prepend(SqlTok::Sym(seq!['=']), sql_tokens(s, i + 1, true))
        } else if c == '!' && (i + 1 < s.len() && s[i + 1] == '=') {
            prepend(SqlTok::Sym(seq!['!', '=']), sql_tokens(s, i + 2, true))
        } else if c == '<' {
            if (i + 1 < s.len() && s[i + 1] == '>') {
                prepend(SqlTok::Sym(seq!['!', '=']), sql_tokens(s, i + 2, true))
            } else if (i + 1 < s.len() && s[i + 1] == '=') {
                prepend(SqlTok::Sym(seq!['<', '=']), sql_tokens(s, i + 2, true))
            } else {
                prepend(SqlTok::Sym(seq!['<']), sql_tokens(s, i + 1, true))
            }
        } else if c == '>' {
            if (i + 1 < s.len() && s[i + 1] == '=') {
                prepend(SqlTok::Sym(seq!['>', '=']), sql_tokens(s, i + 2, true))
            } else {
                prepend(SqlTok::Sym(seq!['>']), sql_tokens(s, i + 1, true))
            }
        } else {
            let j = word_end(s, i);
            proof {
                lemma_word_end(s, i);
            }
            if j <= i {
                (seq![], SqlEnd::Stuck)
            } else {
                prepend(SqlTok::Word(s.subrange(i, j)), sql_tokens(s, j, false))
            }
        }
    }
}

/// The tokens of a statement and how reading ended.
pub open spec fn sql_spec(s: Seq<char>) -> (Seq<SqlTok>, SqlEnd) {
    sql_tokens(s, 0, true)
}

/// A symbol starts at `i`.
pub open spec fn sym_start(s: Seq<char>, i: int) -> bool {
    let c = s[i];
    c == '(' || c == ')' || c == ',' || c == '*' || c == '=' || (c == '!' && i + 1 < s.len() && s[i + 1] == '=')
        || c == '<' || c == '>'
}

fn sym_of(a: char, b: Option<char>) -> (t: SqlToken)
    ensures
        tok_view(t) == SqlTok::Sym(match b {
            Some(y) => seq![a, y],
            None => seq![a],
        }),
{
    let mut x = String::new();
    push_char(&mut x, a);
    match b {
        Some(y) => {
            push_char(&mut x, y);
            assert(x@ =~= seq![a, y]);
        },
        None => {
            assert(x@ =~= seq![a]);
        },
    }
    SqlToken::Sym(x)
}

/// The symbol at `i`, if one starts there, and the position after it.
fn read_symbol(s: &Vec<char>, i: usize, sym_last: bool) -> (r: Option<(SqlToken, usize)>)
    requires
        i < s@.len(),
        !(is_whitespace_spec(s@[i as int]) || s@[i as int] == ';' || s@[i as int] == '\''),
        !(is_ascii_digit_spec(s@[i as int]) || (s@[i as int] == '-' && i + 1 < s@.len() && is_ascii_digit_spec(s@[i + 1])
            && sym_last)),
    ensures
        r is Some <==> sym_start(s@, i as int),
        r matches Some((t, j)) ==> i < j <= s@.len() && sql_tokens(s@, i as int, sym_last) == prepend(
            tok_view(t),
            sql_tokens(s@, j as int, true),
        ),
{
    let n = s.len();
    let c = s[i];
    if c == '(' || c == ')' || c == ',' || c == '*' || c == '=' {
        Some((sym_of(c, None), i + 1))
    } else if c == '!' && i + 1 < n && s[i + 1] == '=' {
        Some((sym_of('!', Some('=')), i + 2))
    } else if c == '<' {
        if i + 1 < n && s[i + 1] == '>' {
            Some((sym_of('!', Some('=')), i + 2))
        } else if i + 1 < n && s[i + 1] == '=' {
            Some((sym_of('<', Some('=')), i + 2))
        } else {
            Some((sym_of('<', None), i + 1))
        }
    } else if c == '>' {
        if i + 1 < n && s[i + 1] == '=' {
            Some((sym_of('>', Some('=')), i + 2))
        } else {
            Some((sym_of('>', None), i + 1))
        }
    } else {
        None
    }
}

/// Reads the tokens of `text` (see `sql_spec`): the tokens read and how
/// reading ended (at the end, in an unclosed string literal, or at a `!`
/// without `=`, where no token can be read).
pub fn tokenize_sql(text: &str) -> (r: (Vec<SqlToken>, SqlEnd))
    ensures
        toks_view(r.0@) == sql_spec(text@).0,
        r.1 == sql_spec(text@).1,
{
    let s = str_chars(text);
    let n = s.len();
    let mut out: Vec<SqlToken> = Vec::new();
    let mut i: usize = 0;
    let mut sym_last = true;
    let ghost total = sql_spec(s@);
    assert(toks_view(out@) =~= Seq::<SqlTok>::empty());
    while i < n
        invariant
            s@ == text@,
            n == s@.len(),
            i <= n,
            total == sql_spec(s@),
            (toks_view(out@) + sql_tokens(s@, i as int, sym_last).0, sql_tokens(s@, i as int, sym_last).1) == total,
        decreases n - i,
    {
        let ghost before = toks_view(out@);
        let ghost rest = sql_tokens(s@, i as int, sym_last);
        let c = s[i];
        if is_whitespace(c) || c == ';' {
            i = i + 1;
            continue;
        }
        if c == '\'' {
            let mut j = i + 1;
            let mut buf = String::new();
            let mut closed = false;
            proof {
                lemma_lit_end(s@, i + 1, seq![]);
            }
            while j < n && !closed
                invariant
                    i < j <= n,
                    n == s@.len(),
                    !closed ==> lit_end(s@, j as int, buf@) == lit_end(s@, i + 1, seq![]),
                    closed ==> lit_end(s@, i + 1, seq![]) == Some((buf@, j as int)),
                decreases n - j + (if closed { 0int } else { 1int }),
            {
                if s[j] == '\'' {
                    if j + 1 < n && s[j + 1] == '\'' {
                        push_char(&mut buf, '\'');
                        j = j + 2;
                    } else {
                        j = j + 1;
                        closed = true;
                    }
                } else {
                    push_char(&mut buf, s[j]);
                    j = j + 1;
                }
            }
            if !closed {
                return (out, SqlEnd::Unterminated);
            }
            out.push(SqlToken::Str(buf));
            proof {
                assert(toks_view(out@) =~= before.push(tok_view(out@.last())));
            }
            i = j;
            sym_last = false;
            proof {
                lemma_lit_end(s@, i as int, seq![]);
            }
            assert(toks_view(out@) + sql_tokens(s@, i as int, sym_last).0 =~= before + rest.0);
            continue;
        }
        let digit = c >= '0' && c <= '9';
        let neg_num = c == '-' && i + 1 < n && s[i + 1] >= '0' && s[i + 1] <= '9' && sym_last;
        if digit || neg_num {
            let mut j = if c == '-' { i + 1 } else { i };
            let ghost j0 = j;
            proof {
                lemma_num_end(s@, j as int);
            }
            while j < n && ((s[j] >= '0' && s[j] <= '9') || s[j] == '.')
                invariant
                    j0 <= j <= n,
                    n == s@.len(),
                    num_end(s@, j as int) == num_end(s@, j0 as int),
                decreases n - j,
            {
                j = j + 1;
            }
            out.push(SqlToken::Num(string_of(s.as_slice(), i, j)));
            proof {
                assert(toks_view(out@) =~= before.push(tok_view(out@.last())));
            }
            i = j;
            sym_last = false;
            assert(toks_view(out@) + sql_tokens(s@, i as int, sym_last).0 =~= before + rest.0);
            continue;
        }
        match read_symbol(&s, i, sym_last) {
            Some((t, j)) => {
                let ghost tk = tok_view(t);
                out.push(t);
                proof {
                    assert(toks_view(out@) =~= before.push(tk));
                }
                i = j;
                sym_last = true;
                assert(toks_view(out@) + sql_tokens(s@, i as int, sym_last).0 =~= before + rest.0);
                continue;
            },
            None => {},
        }
        {
            let mut j = i;
            proof {
                lemma_word_end(s@, i as int);
            }
            while j < n && !(is_whitespace(s[j]) || s[j] == '(' || s[j] == ')' || s[j] == ';' || s[j] == ','
                || s[j] == '*' || s[j] == '=' || s[j] == '\'' || s[j] == '!' || s[j] == '<' || s[j] == '>')
                invariant
                    i <= j <= n,
                    n == s@.len(),
                    word_end(s@, j as int) == word_end(s@, i as int),
                decreases n - j,
            {
                j = j + 1;
            }
            if j == i {
                return (out, SqlEnd::Stuck);
            }
            out.push(SqlToken::Word(string_of(s.as_slice(), i, j)));
            proof {
                assert(toks_view(out@) =~= before.push(tok_view(out@.last())));
            }
            i = j;
            sym_last = false;
            assert(toks_view(out@) + sql_tokens(s@, i as int, sym_last).0 =~= before + rest.0);
            continue;
        }
    }
    (out, SqlEnd::Done)
}

} // verus!
