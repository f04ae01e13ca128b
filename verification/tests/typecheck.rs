use lipi::ast::{BinOp, Expr, Param, Stmt};
use lipi::typecheck::{check, Diagnostic};
use lipi::types::TypeHint;

fn num(n: f64) -> Expr {
    Expr::Number(n.to_bits())
}

fn s(text: &str) -> Expr {
    Expr::Str(text.to_string())
}

fn ident(name: &str) -> Expr {
    Expr::Ident(name.to_string())
}

fn bin(l: Expr, op: BinOp, r: Expr) -> Expr {
    Expr::Binary { left: Box::new(l), op, right: Box::new(r) }
}

fn call(name: &str, args: Vec<Expr>) -> Expr {
    Expr::Call { name: name.to_string(), args }
}

fn at(line: usize, st: Stmt) -> Stmt {
    Stmt::Located { line, inner: Box::new(st) }
}

fn param(name: &str, t: Option<&str>) -> Param {
    Param { name: name.to_string(), karaka: None, default: None, type_hint: t.map(TypeHint::from_name) }
}

fn func(name: &str, params: Vec<Param>, ret: Option<&str>, body: Vec<Stmt>) -> Stmt {
    Stmt::Vidhi {
        name: name.to_string(),
        params,
        body,
        vararg: None,
        pure: false,
        decorators: vec![],
        is_static: false,
        ret_type: ret.map(TypeHint::from_name),
    }
}

fn assign(name: &str, t: Option<&str>, value: Expr) -> Stmt {
    Stmt::Assign { name: name.to_string(), karaka: None, type_hint: t.map(TypeHint::from_name), value }
}

fn diagnostics(program: Vec<Stmt>) -> Vec<Diagnostic> {
    check(&program)
}

// विधि जोड़ो(अ: संख्या, ब: संख्या) -> संख्या:
//     फल अ + ब
// बताओ जोड़ो(2, 3)
#[test]
fn clean_annotated_program_passes() {
    let program = vec![
        at(1, func("जोड़ो", vec![param("अ", Some("संख्या")), param("ब", Some("संख्या"))],
                   Some("संख्या"), vec![at(2, Stmt::Fal(bin(ident("अ"), BinOp::Add, ident("ब"))))])),
        at(3, Stmt::Print(call("जोड़ो", vec![num(2.0), num(3.0)]))),
    ];
    assert!(diagnostics(program).is_empty());
}

// क है 5
// क है "नमस्ते"
// बताओ क
#[test]
fn untyped_program_never_flagged() {
    let program = vec![
        at(1, assign("क", None, num(5.0))),
        at(2, assign("क", None, s("नमस्ते"))),
        at(3, Stmt::Print(ident("क"))),
    ];
    assert!(diagnostics(program).is_empty(), "untyped code must stay dynamic");
}

// विधि दुगुना(अ: संख्या) -> संख्या:
//     फल अ * 2
// बताओ दुगुना("x")
#[test]
fn wrong_arg_type_flagged() {
    let program = vec![
        at(1, func("दुगुना", vec![param("अ", Some("संख्या"))], Some("संख्या"),
                   vec![at(2, Stmt::Fal(bin(ident("अ"), BinOp::Mul, num(2.0))))])),
        at(3, Stmt::Print(call("दुगुना", vec![s("x")]))),
    ];
    let d = diagnostics(program);
    assert_eq!(d.len(), 1, "expected one arg mismatch, got {d:?}");
}

// विधि f() -> संख्या:
//     फल "नमस्ते"
#[test]
fn wrong_return_type_flagged() {
    let program = vec![at(1, func("f", vec![], Some("संख्या"), vec![at(2, Stmt::Fal(s("नमस्ते")))]))];
    let d = diagnostics(program);
    assert_eq!(d.len(), 1, "expected one return mismatch, got {d:?}");
}

// नाम: वाक्य है 42
#[test]
fn bad_annotated_assignment_flagged() {
    let program = vec![at(1, assign("नाम", Some("वाक्य"), num(42.0)))];
    let d = diagnostics(program);
    assert_eq!(d.len(), 1, "expected one assignment mismatch, got {d:?}");
}

// बताओ "x" - 5
#[test]
fn string_minus_number_flagged() {
    let program = vec![at(1, Stmt::Print(bin(s("x"), BinOp::Sub, num(5.0))))];
    let d = diagnostics(program);
    assert_eq!(d.len(), 1, "expected one arithmetic mismatch, got {d:?}");
}

// आयु: संख्या है 30
// बताओ "उम्र: " + आयु
#[test]
fn string_plus_number_allowed() {
    let program = vec![
        at(1, assign("आयु", Some("संख्या"), num(30.0))),
        at(2, Stmt::Print(bin(s("उम्र: "), BinOp::Add, ident("आयु")))),
    ];
    assert!(diagnostics(program).is_empty(), "+ coercion must not be flagged");
}

// विधि f(अ: कुछ_भी) -> कुछ_भी:
//     फल अ - 1
// बताओ f("x")
#[test]
fn any_escape_hatch_silences() {
    let program = vec![
        at(1, func("f", vec![param("अ", Some("कुछ_भी"))], Some("कुछ_भी"),
                   vec![at(2, Stmt::Fal(bin(ident("अ"), BinOp::Sub, num(1.0))))])),
        at(3, Stmt::Print(call("f", vec![s("x")]))),
    ];
    assert!(diagnostics(program).is_empty(), "कुछ_भी must silence checks");
}

#[test]
fn diagnostic_messages_and_lines() {
    let program = vec![
        at(4, assign("नाम", Some("वाक्य"), num(42.0))),
        at(7, Stmt::Print(bin(s("x"), BinOp::Sub, num(5.0)))),
        at(9, assign("नाम", None, Expr::Bool(true))),
    ];
    let d = diagnostics(program);
    assert_eq!(d.len(), 3);
    assert_eq!(d[0].line, 4);
    assert_eq!(d[0].message, "चर 'नाम' का प्रकार वाक्य घोषित है पर संख्या मान दिया गया");
    assert_eq!(d[1].line, 7);
    assert_eq!(d[1].message, "अंकगणित '-' को संख्या चाहिए पर बायाँ पक्ष वाक्य है");
    assert_eq!(d[2].line, 9);
    assert_eq!(d[2].message, "चर 'नाम' (वाक्य) को तर्क मान नहीं दिया जा सकता");
}

#[test]
fn call_checked_before_definition_and_arg_position_reported() {
    let program = vec![
        at(1, Stmt::Print(call("g", vec![num(1.0), s("y")]))),
        at(2, func("g", vec![param("a", None), param("b", Some("संख्या"))], None, vec![])),
    ];
    let d = diagnostics(program);
    assert_eq!(d.len(), 1);
    assert_eq!(d[0].message, "'g' का 2वाँ तर्क संख्या होना चाहिए पर वाक्य दिया गया");
}

#[test]
fn return_message_and_scopes_end_with_function() {
    let program = vec![
        at(1, func("h", vec![param("x", Some("वाक्य"))], Some("तर्क"),
                   vec![at(2, Stmt::Fal(num(1.0)))])),
        at(3, assign("x", None, num(2.0))),
    ];
    let d = diagnostics(program);
    assert_eq!(d.len(), 1);
    assert_eq!(d[0].line, 2);
    assert_eq!(d[0].message, "तर्क प्रकार लौटाना है पर संख्या लौटाया गया");
}
