use lipi::ast::{BinOp, Expr, Stmt};
use lipi::parser::{parse, parse_recover, Token, TokenKind};

fn tok(kind: TokenKind, line: usize) -> Token {
    Token { kind, text: String::new(), number: 0, flag: false, line, shown: format!("{:?}", kind) }
}

fn name(text: &str, line: usize) -> Token {
    Token {
        kind: TokenKind::Ident,
        text: text.to_string(),
        number: 0,
        flag: false,
        line,
        shown: format!("Ident({:?})", text),
    }
}

fn number(n: f64, line: usize) -> Token {
    Token {
        kind: TokenKind::Number,
        text: String::new(),
        number: n.to_bits(),
        flag: false,
        line,
        shown: format!("Number({:?})", n),
    }
}

fn copy(t: &Token) -> Token {
    Token { kind: t.kind, text: t.text.clone(), number: t.number, flag: t.flag, line: t.line, shown: t.shown.clone() }
}

fn is_number(e: &Expr, n: f64) -> bool {
    matches!(e, Expr::Number(bits) if *bits == n.to_bits())
}

// क है 5
fn assignment_tokens() -> Vec<Token> {
    vec![name("क", 1), tok(TokenKind::Hai, 1), number(5.0, 1), tok(TokenKind::Newline, 1), tok(TokenKind::Eof, 2)]
}

fn is_assignment_of_five(s: &Stmt, line: usize) -> bool {
    match s {
        Stmt::Located { line: l, inner } => {
            *l == line
                && match inner.as_ref() {
                    Stmt::Assign { name, karaka: None, type_hint: None, value } => name == "क" && is_number(value, 5.0),
                    _ => false,
                }
        }
        _ => false,
    }
}

#[test]
fn empty_program_parses_to_nothing() {
    let r = parse(vec![tok(TokenKind::Newline, 1), tok(TokenKind::Eof, 2)]);
    assert!(matches!(r, Ok(ref v) if v.is_empty()));
}

#[test]
fn assignment_is_located_on_its_line() {
    let r = parse(assignment_tokens()).unwrap();
    assert_eq!(r.len(), 1);
    assert!(is_assignment_of_five(&r[0], 1));
}

// बताओ 1 + 2 * 3
#[test]
fn multiplication_binds_tighter_than_addition() {
    let toks = vec![
        tok(TokenKind::Batao, 1),
        number(1.0, 1),
        tok(TokenKind::Plus, 1),
        number(2.0, 1),
        tok(TokenKind::Star, 1),
        number(3.0, 1),
        tok(TokenKind::Newline, 1),
        tok(TokenKind::Eof, 2),
    ];
    let r = parse(toks).unwrap();
    assert_eq!(r.len(), 1);
    let ok = match &r[0] {
        Stmt::Located { line: 1, inner } => match inner.as_ref() {
            Stmt::Print(Expr::Binary { left, op: BinOp::Add, right }) => {
                is_number(left, 1.0)
                    && match right.as_ref() {
                        Expr::Binary { left: l2, op: BinOp::Mul, right: r2 } => is_number(l2, 2.0) && is_number(r2, 3.0),
                        _ => false,
                    }
            }
            _ => false,
        },
        _ => false,
    };
    assert!(ok);
}

// बताओ )
#[test]
fn missing_value_is_reported_with_its_line() {
    let toks = vec![tok(TokenKind::Batao, 3), tok(TokenKind::RParen, 3), tok(TokenKind::Newline, 3), tok(TokenKind::Eof, 4)];
    match parse(toks) {
        Err(m) => assert_eq!(m, "अपेक्षित मान नहीं मिला (line 3), मिला: RParen"),
        Ok(_) => panic!("a print without a value must be refused"),
    }
}

// विधि 5
#[test]
fn function_without_name_is_refused() {
    let toks = vec![tok(TokenKind::Vidhi, 1), number(5.0, 1), tok(TokenKind::Newline, 1), tok(TokenKind::Eof, 2)];
    match parse(toks) {
        Err(m) => assert_eq!(m, "नाम अपेक्षित (line 1), मिला: Number(5.0)"),
        Ok(_) => panic!("a function needs a name"),
    }
}

#[test]
fn recovery_changes_nothing_on_a_good_program() {
    let (stmts, errs) = parse_recover(assignment_tokens());
    assert!(errs.is_empty());
    assert_eq!(stmts.len(), 1);
    assert!(is_assignment_of_five(&stmts[0], 1));
}

// बताओ )
// क है 5
#[test]
fn recovery_skips_the_bad_statement_and_reads_on() {
    let toks = vec![
        tok(TokenKind::Batao, 1),
        tok(TokenKind::RParen, 1),
        tok(TokenKind::Newline, 1),
        name("क", 2),
        tok(TokenKind::Hai, 2),
        number(5.0, 2),
        tok(TokenKind::Newline, 2),
        tok(TokenKind::Eof, 3),
    ];
    let first = parse(toks.iter().map(copy).collect());
    let (stmts, errs) = parse_recover(toks);
    assert_eq!(errs, vec!["अपेक्षित मान नहीं मिला (line 1), मिला: RParen".to_string()]);
    assert_eq!(stmts.len(), 1);
    assert!(is_assignment_of_five(&stmts[0], 2));
    assert!(matches!(first, Err(ref m) if *m == errs[0]));
}

// बताओ ) (1
// 2)
// क है 5
#[test]
fn recovery_skips_past_open_brackets() {
    let toks = vec![
        tok(TokenKind::Batao, 1),
        tok(TokenKind::RParen, 1),
        tok(TokenKind::LParen, 1),
        number(1.0, 1),
        tok(TokenKind::Newline, 1),
        number(2.0, 2),
        tok(TokenKind::RParen, 2),
        tok(TokenKind::Newline, 2),
        name("क", 3),
        tok(TokenKind::Hai, 3),
        number(5.0, 3),
        tok(TokenKind::Newline, 3),
        tok(TokenKind::Eof, 4),
    ];
    let (stmts, errs) = parse_recover(toks);
    assert_eq!(errs, vec!["अपेक्षित मान नहीं मिला (line 1), मिला: RParen".to_string()]);
    assert_eq!(stmts.len(), 1);
    assert!(is_assignment_of_five(&stmts[0], 3));
}
