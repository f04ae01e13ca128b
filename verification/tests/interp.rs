use lipi::ast::{BinOp, Expr};
use lipi::interp::{fmt_target_expr, is_interp_ident, is_interp_target, make_call, named_spec_expr, parse_fmt_string};

fn is_str(e: &Expr, want: &str) -> bool {
    matches!(e, Expr::Str(s) if s == want)
}

fn is_text_of(e: &Expr, var: &str) -> bool {
    match e {
        Expr::Call { name, args } => name == "वाक्य" && args.len() == 1 && matches!(&args[0], Expr::Ident(x) if x == var),
        _ => false,
    }
}

#[test]
fn interp_names_and_literals() {
    let e = parse_fmt_string("नमस्ते {नाम}!");
    match e {
        Expr::Binary { left, op: BinOp::Add, right } => {
            assert!(is_str(&right, "!"));
            match *left {
                Expr::Binary { left: l2, op: BinOp::Add, right: r2 } => {
                    assert!(is_str(&l2, "नमस्ते "));
                    assert!(is_text_of(&r2, "नाम"));
                }
                _ => panic!("inner sum"),
            }
        }
        _ => panic!("sum"),
    }
}

#[test]
fn interp_field_and_spec() {
    match parse_fmt_string("{ व्यक्ति . नाम }") {
        Expr::Call { name, args } => {
            assert_eq!(name, "वाक्य");
            assert!(matches!(&args[0], Expr::Attr { obj, field } if field == "नाम" && matches!(&**obj, Expr::Ident(o) if o == "व्यक्ति")));
        }
        _ => panic!("call"),
    }
    match parse_fmt_string("{x:.2}") {
        Expr::Call { name, args } => {
            assert_eq!(name, "स्वरूप");
            assert!(is_str(&args[0], "{:.2}"));
            assert!(matches!(&args[1], Expr::Ident(x) if x == "x"));
        }
        _ => panic!("call"),
    }
}

#[test]
fn interp_literal_braces() {
    assert!(is_str(&parse_fmt_string("{\"k\": 1}"), "{\"k\": 1}"));
    assert!(is_str(&parse_fmt_string("{}"), "{}"));
    assert!(is_str(&parse_fmt_string("{1x}"), "{1x}"));
    assert!(is_str(&parse_fmt_string(""), ""));
    match parse_fmt_string("10:30 {") {
        Expr::Binary { left, right, .. } => {
            assert!(is_str(&left, "10:30 "));
            assert!(is_str(&right, "{"));
        }
        _ => panic!("sum"),
    }
    // a time inside braces is no format spec
    assert!(is_str(&parse_fmt_string("{घंटा:मिनट}"), "{घंटा:मिनट}"));
}

#[test]
fn interp_helpers() {
    assert!(is_interp_ident("नाम_1"));
    assert!(!is_interp_ident("1a"));
    assert!(!is_interp_ident(""));
    assert!(is_interp_target(" a . b "));
    assert!(!is_interp_target("a.b.c"));
    assert!(matches!(fmt_target_expr("  x "), Expr::Ident(x) if x == "x"));
    assert!(named_spec_expr("x:abc").is_none());
    assert!(named_spec_expr("x: ,").is_some());
    assert!(matches!(make_call("f".to_string(), vec![], vec![]), Expr::Call { .. }));
    assert!(matches!(make_call("f".to_string(), vec![], vec![("k".to_string(), Expr::Bool(true))]), Expr::CallKw { .. }));
}
