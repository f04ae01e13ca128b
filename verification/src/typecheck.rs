//! The static type checker: a gradual checker that walks the syntax tree and
//! reports only concrete, certain type mismatches. Unannotated values, `Any`
//! (कुछ_भी) and nominal class types are never flagged, so untyped programs pass
//! cleanly. It reports:
//!   1. a non-number operand of `- * / // % & | ^ << >>`;
//!   2. a call argument whose concrete type disagrees with the parameter's type;
//!   3. a `फल` whose concrete type disagrees with the function's `-> प्रकार`;
//!   4. an annotated variable given a value of another concrete type.
//! `+` is never flagged: it coerces (a string with a number concatenates).

use vstd::prelude::*;
use crate::ast::{BinOp, Expr, Param, Stmt, unwrap_located, unwrap_located_spec};
use crate::name_table::{NameTable, lookup, sorted_insert};
use crate::text::{push_str, decimal, decimal_spec, str_eq};
use crate::types::{TypeHint, TypeModel, spec_accepts, spec_type_name};

verus! {

/// A reported mismatch: the source line and the message.
#[derive(Debug, Clone)]
pub struct Diagnostic {
    pub line: u32,
    pub message: String,
}

impl View for Diagnostic {
    type V = (int, Seq<char>);

    open spec fn view(&self) -> (int, Seq<char>) {
        (self.line as int, self.message@)
    }
}

/// A function's declared parameter types and return type (`Any` where unannotated).
pub struct FuncSig {
    pub params: Vec<TypeHint>,
    pub ret: TypeHint,
}

impl View for FuncSig {
    type V = (Seq<TypeModel>, TypeModel);

    open spec fn view(&self) -> (Seq<TypeModel>, TypeModel) {
        (self.params@.map_values(|t: TypeHint| t@), self.ret@)
    }
}

/// The checker's state while it walks a program.
#[verifier::ext_equal]
pub struct CheckState {
    pub diags: Seq<(int, Seq<char>)>,
    /// Lexical scopes, innermost last: the declared type of each annotated variable.
    pub scopes: Seq<Seq<(Seq<char>, TypeModel)>>,
    /// Every top-level function's signature.
    pub funcs: Seq<(Seq<char>, (Seq<TypeModel>, TypeModel))>,
    pub cur_line: int,
    /// The declared return type of the function being checked.
    pub cur_ret: Option<TypeModel>,
}

/// A type the checker is sure of: a primitive, not `Any` or a class type.
pub open spec fn concrete(t: TypeModel) -> bool {
    !(t is Any) && !(t is Named)
}

/// A certain mismatch between a declared and an actual type.
pub open spec fn mismatch(declared: TypeModel, actual: TypeModel) -> bool {
    concrete(declared) && concrete(actual) && !spec_accepts(declared, actual)
}

pub open spec fn model_of(t: Option<TypeHint>) -> Option<TypeModel> {
    match t {
        Some(h) => Some(h@),
        None => None,
    }
}

/// The declared type, or `Any` when unannotated.
pub open spec fn or_any(t: Option<TypeHint>) -> TypeModel {
    match t {
        Some(h) => h@,
        None => TypeModel::Any,
    }
}

pub open spec fn add_diag(st: CheckState, msg: Seq<char>) -> CheckState {
    CheckState { diags: st.diags.push((st.cur_line, msg)), ..st }
}

/// Records `name`'s declared type in the innermost scope.
pub open spec fn declare_spec(st: CheckState, name: Seq<char>, t: TypeModel) -> CheckState {
    if st.scopes.len() > 0 {
        CheckState {
            scopes: st.scopes.update(
                st.scopes.len() - 1,
                sorted_insert(st.scopes.last(), name, t),
            ),
            ..st
        }
    } else {
        st
    }
}

/// The declared type of `name` in the innermost scope that has one.
pub open spec fn lookup_scopes(scopes: Seq<Seq<(Seq<char>, TypeModel)>>, name: Seq<char>) -> Option<TypeModel>
    decreases scopes.len(),
{
    if scopes.len() == 0 {
        None
    } else {
        match lookup(scopes.last(), name) {
            Some(t) => Some(t),
            None => lookup_scopes(scopes.drop_last(), name),
        }
    }
}

/// The return type a call to `name` has: the signature's, or `Any`.
pub open spec fn call_ret(st: CheckState, name: Seq<char>) -> TypeModel {
    match lookup(st.funcs, name) {
        Some(sig) => sig.1,
        None => TypeModel::Any,
    }
}

/// "variable 'x' is declared T but given a U value"
pub open spec fn msg_annotated(name: Seq<char>, d: TypeModel, v: TypeModel) -> Seq<char> {
    "चर '"@ + name + "' का प्रकार "@ + spec_type_name(d) + " घोषित है पर "@ + spec_type_name(v)
        + " मान दिया गया"@
}

/// "variable 'x' (T) cannot be given a U value"
pub open spec fn msg_reassign(name: Seq<char>, d: TypeModel, v: TypeModel) -> Seq<char> {
    "चर '"@ + name + "' ("@ + spec_type_name(d) + ") को "@ + spec_type_name(v)
        + " मान नहीं दिया जा सकता"@
}

/// "must return T but returned U"
pub open spec fn msg_return(r: TypeModel, v: TypeModel) -> Seq<char> {
    spec_type_name(r) + " प्रकार लौटाना है पर "@ + spec_type_name(v) + " लौटाया गया"@
}

/// "arithmetic 'op' needs a number but the <side> side is T"
pub open spec fn msg_arith(op: Seq<char>, side: Seq<char>, t: TypeModel) -> Seq<char> {
    "अंकगणित '"@ + op + "' को संख्या चाहिए पर "@ + side + " पक्ष "@ + spec_type_name(t) + " है"@
}

/// "argument k of 'f' must be T but U was given"
pub open spec fn msg_arg(name: Seq<char>, pos: int, p: TypeModel, a: TypeModel) -> Seq<char> {
    "'"@ + name + "' का "@ + decimal_spec(pos as nat) + "वाँ तर्क "@ + spec_type_name(p)
        + " होना चाहिए पर "@ + spec_type_name(a) + " दिया गया"@
}

/// The source spelling of an operator.
pub open spec fn binop_name_spec(op: BinOp) -> Seq<char> {
    match op {
        BinOp::Add => "+"@,
        BinOp::Sub => "-"@,
        BinOp::Mul => "*"@,
        BinOp::Div => "/"@,
        BinOp::FloorDiv => "//"@,
        BinOp::Mod => "%"@,
        BinOp::BitAnd => "&"@,
        BinOp::BitOr => "|"@,
        BinOp::BitXor => "^"@,
        BinOp::LShift => "<<"@,
        BinOp::RShift => ">>"@,
        BinOp::And => "और"@,
        BinOp::Or => "या"@,
    }
}

/// One operand of an arithmetic operator: flagged when it is surely not a number.
pub open spec fn check_operand(st: CheckState, op: BinOp, side: Seq<char>, t: TypeModel) -> CheckState {
    if concrete(t) && !(t is Number) {
        add_diag(st, msg_arith(binop_name_spec(op), side, t))
    } else {
        st
    }
}

/// The type of a binary operation on operands of types `lt` and `rt`.
pub open spec fn infer_binop_spec(st: CheckState, op: BinOp, lt: TypeModel, rt: TypeModel) -> (CheckState, TypeModel) {
    match op {
        BinOp::Add => (st, if lt is Str || rt is Str {
            TypeModel::Str
        } else if lt is List && rt is List {
            TypeModel::List
        } else if lt is Number && rt is Number {
            TypeModel::Number
        } else {
            TypeModel::Any
        }),
        BinOp::And | BinOp::Or => (st, TypeModel::Bool),
        _ => (
            check_operand(check_operand(st, op, "बायाँ"@, lt), op, "दायाँ"@, rt),
            TypeModel::Number,
        ),
    }
}

/// The inferred type of an expression and the state after checking it.
pub open spec fn infer_spec(st: CheckState, e: Expr) -> (CheckState, TypeModel)
    decreases e, 0int,
{
    match e {
        Expr::Number(_) => (st, TypeModel::Number),
        Expr::Str(_) => (st, TypeModel::Str),
        Expr::Bool(_) => (st, TypeModel::Bool),
        Expr::List(_) | Expr::ListWithSpread(_) => (st, TypeModel::List),
        Expr::Dict(_) => (st, TypeModel::Dict),
        Expr::Ident(name) => if name@ == "शून्य"@ {
            (st, TypeModel::Nil)
        } else {
            (st, match lookup_scopes(st.scopes, name@) {
                Some(t) => t,
                None => TypeModel::Any,
            })
        },
        Expr::Binary { left, op, right } => {
            let (s1, lt) = infer_spec(st, *left);
            let (s2, rt) = infer_spec(s1, *right);
            infer_binop_spec(s2, op, lt, rt)
        },
        Expr::Compare { left, right, .. } => {
            let (s1, _) = infer_spec(st, *left);
            let (s2, _) = infer_spec(s1, *right);
            (s2, TypeModel::Bool)
        },
        Expr::Not(x) => (infer_spec(st, *x).0, TypeModel::Bool),
        Expr::Membership { item, container, .. } => {
            let (s1, _) = infer_spec(st, *item);
            let (s2, _) = infer_spec(s1, *container);
            (s2, TypeModel::Bool)
        },
        Expr::BitNot(x) => (infer_spec(st, *x).0, TypeModel::Number),
        Expr::Call { name, args } => {
            let (s1, tys) = infer_list(st, args@, 0);
            (check_args_spec(s1, name@, tys), call_ret(st, name@))
        },
        Expr::CallKw { name, args, kwargs } => {
            let (s1, _) = infer_list(st, args@, 0);
            let s2 = infer_kw(s1, kwargs@, 0);
            (s2, call_ret(st, name@))
        },
        Expr::Ternary { condition, then_val, else_val } => {
            let (s1, _) = infer_spec(st, *condition);
            let (s2, a) = infer_spec(s1, *then_val);
            let (s3, b) = infer_spec(s2, *else_val);
            (s3, if a == b {
                a
            } else {
                TypeModel::Any
            })
        },
        Expr::Slice { obj, start, end, step } => {
            let (s1, ot) = infer_spec(st, *obj);
            let s2 = infer_opt(s1, start);
            let s3 = infer_opt(s2, end);
            let s4 = infer_opt(s3, step);
            (s4, match ot {
                TypeModel::List => TypeModel::List,
                TypeModel::Str => TypeModel::Str,
                _ => TypeModel::Any,
            })
        },
        Expr::Walrus { name, value } => {
            let (s1, vt) = infer_spec(st, *value);
            match lookup_scopes(s1.scopes, name@) {
                Some(d) => (if mismatch(d, vt) {
                    add_diag(s1, msg_reassign(name@, d, vt))
                } else {
                    s1
                }, d),
                None => (s1, vt),
            }
        },
        Expr::Index { obj, idx } => {
            let (s1, _) = infer_spec(st, *obj);
            let (s2, _) = infer_spec(s1, *idx);
            (s2, TypeModel::Any)
        },
        Expr::MethodCall { object, args, .. } => {
            let (s1, _) = infer_spec(st, *object);
            (infer_list(s1, args@, 0).0, TypeModel::Any)
        },
        Expr::MethodCallKw { object, args, kwargs, .. } => {
            let (s1, _) = infer_spec(st, *object);
            let (s2, _) = infer_list(s1, args@, 0);
            (infer_kw(s2, kwargs@, 0), TypeModel::Any)
        },
        Expr::Attr { obj, .. } => (infer_spec(st, *obj).0, TypeModel::Any),
        Expr::Await(x) => (infer_spec(st, *x).0, TypeModel::Any),
        Expr::Comprehension { .. } => (st, TypeModel::List),
        Expr::Lambda { .. } => (st, TypeModel::Any),
    }
}

/// The expressions `es[i..]` checked in order, with their types.
pub open spec fn infer_list(st: CheckState, es: Seq<Expr>, i: int) -> (CheckState, Seq<TypeModel>)
    decreases es, es.len() - i,
{
    if i < 0 || i >= es.len() {
        (st, Seq::empty())
    } else {
        let (s1, t) = infer_spec(st, es[i]);
        let (s2, ts) = infer_list(s1, es, i + 1);
        (s2, seq![t] + ts)
    }
}

/// The keyword-argument values `kw[i..]` checked in order.
pub open spec fn infer_kw(st: CheckState, kw: Seq<(String, Expr)>, i: int) -> CheckState
    decreases kw, kw.len() - i,
{
    if i < 0 || i >= kw.len() {
        st
    } else {
        infer_kw(infer_spec(st, kw[i].1).0, kw, i + 1)
    }
}

/// An optional expression checked if present.
pub open spec fn infer_opt(st: CheckState, e: Option<Box<Expr>>) -> CheckState
    decreases e, 1int,
{
    match e {
        Some(x) => infer_spec(st, *x).0,
        None => st,
    }
}

/// The argument types of a call to `name` held against its parameter types.
pub open spec fn check_args_spec(st: CheckState, name: Seq<char>, tys: Seq<TypeModel>) -> CheckState {
    match lookup(st.funcs, name) {
        Some(sig) => check_args_from(st, name, sig.0, tys, 0),
        None => st,
    }
}

pub open spec fn check_args_from(st: CheckState, name: Seq<char>, params: Seq<TypeModel>, tys: Seq<TypeModel>, i: int) -> CheckState
    decreases tys.len() - i,
{
    if i < 0 || i >= tys.len() {
        st
    } else {
        let s1 = if i < params.len() && mismatch(params[i], tys[i]) {
            add_diag(st, msg_arg(name, i + 1, params[i], tys[i]))
        } else {
            st
        };
        check_args_from(s1, name, params, tys, i + 1)
    }
}

/// The parameters' declared types recorded in the innermost scope.
pub open spec fn declare_params(st: CheckState, ps: Seq<Param>, i: int) -> CheckState
    decreases ps.len() - i,
{
    if i < 0 || i >= ps.len() {
        st
    } else {
        let s1 = match ps[i].type_hint {
            Some(t) => declare_spec(st, ps[i].name@, t@),
            None => st,
        };
        declare_params(s1, ps, i + 1)
    }
}

/// The state after checking a statement.
pub open spec fn check_stmt_spec(st: CheckState, s: Stmt) -> CheckState
    decreases s, 0int,
{
    match s {
        Stmt::Located { line, inner } => check_stmt_spec(
            CheckState { cur_line: (line as u32) as int, ..st },
            *inner,
        ),
        Stmt::Assign { name, type_hint, value, .. } => {
            let (s1, vt) = infer_spec(st, value);
            match type_hint {
                Some(d) => {
                    let s2 = if mismatch(d@, vt) {
                        add_diag(s1, msg_annotated(name@, d@, vt))
                    } else {
                        s1
                    };
                    declare_spec(s2, name@, d@)
                },
                None => match lookup_scopes(s1.scopes, name@) {
                    Some(d) => if mismatch(d, vt) {
                        add_diag(s1, msg_reassign(name@, d, vt))
                    } else {
                        s1
                    },
                    None => s1,
                },
            }
        },
        Stmt::Vidhi { params, body, ret_type, .. } => {
            let s1 = declare_params(
                CheckState { scopes: st.scopes.push(Seq::empty()), ..st },
                params@,
                0,
            );
            let s2 = check_block_spec(CheckState { cur_ret: model_of(ret_type), ..s1 }, body@, 0);
            CheckState { cur_ret: st.cur_ret, scopes: s2.scopes.drop_last(), ..s2 }
        },
        Stmt::Fal(e) => {
            let (s1, vt) = infer_spec(st, e);
            match s1.cur_ret {
                Some(r) => if mismatch(r, vt) {
                    add_diag(s1, msg_return(r, vt))
                } else {
                    s1
                },
                None => s1,
            }
        },
        Stmt::Print(e) | Stmt::ExprStmt(e) | Stmt::Yield(e) => infer_spec(st, e).0,
        Stmt::Yadi { condition, then, otherwise } => {
            let s1 = check_block_spec(infer_spec(st, condition).0, then@, 0);
            match otherwise {
                Some(els) => check_block_spec(s1, els@, 0),
                None => s1,
            }
        },
        Stmt::JabTak { condition, body } => check_block_spec(infer_spec(st, condition).0, body@, 0),
        Stmt::BarKaro { count, body } => check_block_spec(infer_spec(st, count).0, body@, 0),
        Stmt::KeeLiye { iter, body, .. } => check_block_spec(infer_spec(st, iter).0, body@, 0),
        Stmt::Varg { methods, .. } => check_block_spec(st, methods@, 0),
        _ => st,
    }
}

/// The state after checking the statements `ss[i..]` in order.
pub open spec fn check_block_spec(st: CheckState, ss: Seq<Stmt>, i: int) -> CheckState
    decreases ss, ss.len() - i,
{
    if i < 0 || i >= ss.len() {
        st
    } else {
        check_block_spec(check_stmt_spec(st, ss[i]), ss, i + 1)
    }
}

/// The signatures of the top-level functions among `ss[i..]` added to `funcs`.
pub open spec fn collect_spec(funcs: Seq<(Seq<char>, (Seq<TypeModel>, TypeModel))>, ss: Seq<Stmt>, i: int) -> Seq<(Seq<char>, (Seq<TypeModel>, TypeModel))>
    decreases ss.len() - i,
{
    if i < 0 || i >= ss.len() {
        funcs
    } else {
        let f1 = match unwrap_located_spec(ss[i]) {
            Stmt::Vidhi { name, params, ret_type, .. } => sorted_insert(
                funcs,
                name@,
                (params@.map_values(|p: Param| or_any(p.type_hint)), or_any(ret_type)),
            ),
            _ => funcs,
        };
        collect_spec(f1, ss, i + 1)
    }
}

/// The diagnostics for a program: every top-level signature is collected
/// first (so calls are checked whatever the order of definitions), then the
/// statements are checked in order.
pub open spec fn check_spec(ss: Seq<Stmt>) -> Seq<(int, Seq<char>)> {
    let st0 = CheckState {
        diags: Seq::empty(),
        scopes: seq![Seq::empty()],
        funcs: collect_spec(Seq::empty(), ss, 0),
        cur_line: 0,
        cur_ret: None,
    };
    check_block_spec(st0, ss, 0).diags
}


pub proof fn lemma_infer_scopes(st: CheckState, e: Expr)
    ensures
        infer_spec(st, e).0.scopes == st.scopes,
    decreases e, 0int,
{
    match e {
        Expr::Binary { left, right, .. } => {
            lemma_infer_scopes(st, *left);
            lemma_infer_scopes(infer_spec(st, *left).0, *right);
        },
        Expr::Compare { left, right, .. } => {
            lemma_infer_scopes(st, *left);
            lemma_infer_scopes(infer_spec(st, *left).0, *right);
        },
        Expr::Not(x) => lemma_infer_scopes(st, *x),
        Expr::Membership { item, container, .. } => {
            lemma_infer_scopes(st, *item);
            lemma_infer_scopes(infer_spec(st, *item).0, *container);
        },
        Expr::BitNot(x) => lemma_infer_scopes(st, *x),
        Expr::Call { name, args } => {
            lemma_list_scopes(st, args@, 0);
            let (s1, tys) = infer_list(st, args@, 0);
            match lookup(s1.funcs, name@) {
                Some(sig) => lemma_args_scopes(s1, name@, sig.0, tys, 0),
                None => {},
            }
        },
        Expr::CallKw { args, kwargs, .. } => {
            lemma_list_scopes(st, args@, 0);
            lemma_kw_scopes(infer_list(st, args@, 0).0, kwargs@, 0);
        },
        Expr::Ternary { condition, then_val, else_val } => {
            lemma_infer_scopes(st, *condition);
            let s1 = infer_spec(st, *condition).0;
            lemma_infer_scopes(s1, *then_val);
            lemma_infer_scopes(infer_spec(s1, *then_val).0, *else_val);
        },
        Expr::Slice { obj, start, end, step } => {
            lemma_infer_scopes(st, *obj);
            let s1 = infer_spec(st, *obj).0;
            lemma_opt_scopes(s1, start);
            let s2 = infer_opt(s1, start);
            lemma_opt_scopes(s2, end);
            lemma_opt_scopes(infer_opt(s2, end), step);
        },
        Expr::Walrus { value, .. } => lemma_infer_scopes(st, *value),
        Expr::Index { obj, idx } => {
            lemma_infer_scopes(st, *obj);
            lemma_infer_scopes(infer_spec(st, *obj).0, *idx);
        },
        Expr::MethodCall { object, args, .. } => {
            lemma_infer_scopes(st, *object);
            lemma_list_scopes(infer_spec(st, *object).0, args@, 0);
        },
        Expr::MethodCallKw { object, args, kwargs, .. } => {
            lemma_infer_scopes(st, *object);
            let s1 = infer_spec(st, *object).0;
            lemma_list_scopes(s1, args@, 0);
            lemma_kw_scopes(infer_list(s1, args@, 0).0, kwargs@, 0);
        },
        Expr::Attr { obj, .. } => lemma_infer_scopes(st, *obj),
        Expr::Await(x) => lemma_infer_scopes(st, *x),
        _ => {},
    }
}

pub proof fn lemma_list_scopes(st: CheckState, es: Seq<Expr>, i: int)
    ensures
        infer_list(st, es, i).0.scopes == st.scopes,
    decreases es, es.len() - i,
{
    if 0 <= i < es.len() {
        lemma_infer_scopes(st, es[i]);
        lemma_list_scopes(infer_spec(st, es[i]).0, es, i + 1);
    }
}

pub proof fn lemma_kw_scopes(st: CheckState, kw: Seq<(String, Expr)>, i: int)
    ensures
        infer_kw(st, kw, i).scopes == st.scopes,
    decreases kw, kw.len() - i,
{
    if 0 <= i < kw.len() {
        lemma_infer_scopes(st, kw[i].1);
        lemma_kw_scopes(infer_spec(st, kw[i].1).0, kw, i + 1);
    }
}

pub proof fn lemma_opt_scopes(st: CheckState, e: Option<Box<Expr>>)
    ensures
        infer_opt(st, e).scopes == st.scopes,
    decreases e, 1int,
{
    match e {
        Some(x) => lemma_infer_scopes(st, *x),
        None => {},
    }
}

pub proof fn lemma_args_scopes(st: CheckState, name: Seq<char>, params: Seq<TypeModel>, tys: Seq<TypeModel>, i: int)
    ensures
        check_args_from(st, name, params, tys, i).scopes == st.scopes,
    decreases tys.len() - i,
{
    if 0 <= i < tys.len() {
        let s1 = if i < params.len() && mismatch(params[i], tys[i]) {
            add_diag(st, msg_arg(name, i + 1, params[i], tys[i]))
        } else {
            st
        };
        lemma_args_scopes(s1, name, params, tys, i + 1);
    }
}

pub proof fn lemma_params_scopes(st: CheckState, ps: Seq<Param>, i: int)
    ensures
        declare_params(st, ps, i).scopes.len() == st.scopes.len(),
    decreases ps.len() - i,
{
    if 0 <= i < ps.len() {
        let s1 = match ps[i].type_hint {
            Some(t) => declare_spec(st, ps[i].name@, t@),
            None => st,
        };
        lemma_params_scopes(s1, ps, i + 1);
    }
}

pub proof fn lemma_stmt_scopes(st: CheckState, s: Stmt)
    ensures
        check_stmt_spec(st, s).scopes.len() == st.scopes.len(),
    decreases s, 0int,
{
    match s {
        Stmt::Located { line, inner } => lemma_stmt_scopes(
            CheckState { cur_line: (line as u32) as int, ..st },
            *inner,
        ),
        Stmt::Assign { value, .. } => lemma_infer_scopes(st, value),
        Stmt::Vidhi { params, body, ret_type, .. } => {
            let s0 = CheckState { scopes: st.scopes.push(Seq::empty()), ..st };
            lemma_params_scopes(s0, params@, 0);
            let s1 = declare_params(s0, params@, 0);
            lemma_block_scopes(CheckState { cur_ret: model_of(ret_type), ..s1 }, body@, 0);
        },
        Stmt::Fal(e) => lemma_infer_scopes(st, e),
        Stmt::Print(e) | Stmt::ExprStmt(e) | Stmt::Yield(e) => lemma_infer_scopes(st, e),
        Stmt::Yadi { condition, then, otherwise } => {
            lemma_infer_scopes(st, condition);
            let s1 = infer_spec(st, condition).0;
            lemma_block_scopes(s1, then@, 0);
            match otherwise {
                Some(els) => lemma_block_scopes(check_block_spec(s1, then@, 0), els@, 0),
                None => {},
            }
        },
        Stmt::JabTak { condition, body } => {
            lemma_infer_scopes(st, condition);
            lemma_block_scopes(infer_spec(st, condition).0, body@, 0);
        },
        Stmt::BarKaro { count, body } => {
            lemma_infer_scopes(st, count);
            lemma_block_scopes(infer_spec(st, count).0, body@, 0);
        },
        Stmt::KeeLiye { iter, body, .. } => {
            lemma_infer_scopes(st, iter);
            lemma_block_scopes(infer_spec(st, iter).0, body@, 0);
        },
        Stmt::Varg { methods, .. } => lemma_block_scopes(st, methods@, 0),
        _ => {},
    }
}

pub proof fn lemma_block_scopes(st: CheckState, ss: Seq<Stmt>, i: int)
    ensures
        check_block_spec(st, ss, i).scopes.len() == st.scopes.len(),
    decreases ss, ss.len() - i,
{
    if 0 <= i < ss.len() {
        lemma_stmt_scopes(st, ss[i]);
        lemma_block_scopes(check_stmt_spec(st, ss[i]), ss, i + 1);
    }
}

/// `b` holds the diagnostics `a`, in order, and possibly more after them.
pub open spec fn extends(a: Seq<(int, Seq<char>)>, b: Seq<(int, Seq<char>)>) -> bool {
    a.len() <= b.len() && forall|i: int| 0 <= i < a.len() ==> b[i] == a[i]
}

pub proof fn lemma_infer_grows(st: CheckState, e: Expr)
    ensures
        extends(st.diags, infer_spec(st, e).0.diags),
    decreases e, 0int,
{
    match e {
        Expr::Binary { left, right, .. } => {
            lemma_infer_grows(st, *left);
            lemma_infer_grows(infer_spec(st, *left).0, *right);
        },
        Expr::Compare { left, right, .. } => {
            lemma_infer_grows(st, *left);
            lemma_infer_grows(infer_spec(st, *left).0, *right);
        },
        Expr::Not(x) => lemma_infer_grows(st, *x),
        Expr::Membership { item, container, .. } => {
            lemma_infer_grows(st, *item);
            lemma_infer_grows(infer_spec(st, *item).0, *container);
        },
        Expr::BitNot(x) => lemma_infer_grows(st, *x),
        Expr::Call { name, args } => {
            lemma_list_grows(st, args@, 0);
            let (s1, tys) = infer_list(st, args@, 0);
            match lookup(s1.funcs, name@) {
                Some(sig) => lemma_args_grows(s1, name@, sig.0, tys, 0),
                None => {},
            }
        },
        Expr::CallKw { args, kwargs, .. } => {
            lemma_list_grows(st, args@, 0);
            lemma_kw_grows(infer_list(st, args@, 0).0, kwargs@, 0);
        },
        Expr::Ternary { condition, then_val, else_val } => {
            lemma_infer_grows(st, *condition);
            let s1 = infer_spec(st, *condition).0;
            lemma_infer_grows(s1, *then_val);
            lemma_infer_grows(infer_spec(s1, *then_val).0, *else_val);
        },
        Expr::Slice { obj, start, end, step } => {
            lemma_infer_grows(st, *obj);
            let s1 = infer_spec(st, *obj).0;
            lemma_opt_grows(s1, start);
            let s2 = infer_opt(s1, start);
            lemma_opt_grows(s2, end);
            lemma_opt_grows(infer_opt(s2, end), step);
        },
        Expr::Walrus { value, .. } => lemma_infer_grows(st, *value),
        Expr::Index { obj, idx } => {
            lemma_infer_grows(st, *obj);
            lemma_infer_grows(infer_spec(st, *obj).0, *idx);
        },
        Expr::MethodCall { object, args, .. } => {
            lemma_infer_grows(st, *object);
            lemma_list_grows(infer_spec(st, *object).0, args@, 0);
        },
        Expr::MethodCallKw { object, args, kwargs, .. } => {
            lemma_infer_grows(st, *object);
            let s1 = infer_spec(st, *object).0;
            lemma_list_grows(s1, args@, 0);
            lemma_kw_grows(infer_list(s1, args@, 0).0, kwargs@, 0);
        },
        Expr::Attr { obj, .. } => lemma_infer_grows(st, *obj),
        Expr::Await(x) => lemma_infer_grows(st, *x),
        _ => {},
    }
}

pub proof fn lemma_list_grows(st: CheckState, es: Seq<Expr>, i: int)
    ensures
        extends(st.diags, infer_list(st, es, i).0.diags),
    decreases es, es.len() - i,
{
    if 0 <= i < es.len() {
        lemma_infer_grows(st, es[i]);
        lemma_list_grows(infer_spec(st, es[i]).0, es, i + 1);
    }
}

pub proof fn lemma_kw_grows(st: CheckState, kw: Seq<(String, Expr)>, i: int)
    ensures
        extends(st.diags, infer_kw(st, kw, i).diags),
    decreases kw, kw.len() - i,
{
    if 0 <= i < kw.len() {
        lemma_infer_grows(st, kw[i].1);
        lemma_kw_grows(infer_spec(st, kw[i].1).0, kw, i + 1);
    }
}

pub proof fn lemma_opt_grows(st: CheckState, e: Option<Box<Expr>>)
    ensures
        extends(st.diags, infer_opt(st, e).diags),
    decreases e, 1int,
{
    match e {
        Some(x) => lemma_infer_grows(st, *x),
        None => {},
    }
}

pub proof fn lemma_args_grows(st: CheckState, name: Seq<char>, params: Seq<TypeModel>, tys: Seq<TypeModel>, i: int)
    ensures
        extends(st.diags, check_args_from(st, name, params, tys, i).diags),
    decreases tys.len() - i,
{
    if 0 <= i < tys.len() {
        let s1 = if i < params.len() && mismatch(params[i], tys[i]) {
            add_diag(st, msg_arg(name, i + 1, params[i], tys[i]))
        } else {
            st
        };
        lemma_args_grows(s1, name, params, tys, i + 1);
    }
}

pub proof fn lemma_params_grows(st: CheckState, ps: Seq<Param>, i: int)
    ensures
        declare_params(st, ps, i).diags == st.diags,
    decreases ps.len() - i,
{
    if 0 <= i < ps.len() {
        let s1 = match ps[i].type_hint {
            Some(t) => declare_spec(st, ps[i].name@, t@),
            None => st,
        };
        lemma_params_grows(s1, ps, i + 1);
    }
}

pub proof fn lemma_stmt_grows(st: CheckState, s: Stmt)
    ensures
        extends(st.diags, check_stmt_spec(st, s).diags),
    decreases s, 0int,
{
    match s {
        Stmt::Located { line, inner } => lemma_stmt_grows(
            CheckState { cur_line: (line as u32) as int, ..st },
            *inner,
        ),
        Stmt::Assign { value, .. } => lemma_infer_grows(st, value),
        Stmt::Vidhi { params, body, ret_type, .. } => {
            let s0 = CheckState { scopes: st.scopes.push(Seq::empty()), ..st };
            lemma_params_grows(s0, params@, 0);
            let s1 = declare_params(s0, params@, 0);
            lemma_block_grows(CheckState { cur_ret: model_of(ret_type), ..s1 }, body@, 0);
        },
        Stmt::Fal(e) => lemma_infer_grows(st, e),
        Stmt::Print(e) | Stmt::ExprStmt(e) | Stmt::Yield(e) => lemma_infer_grows(st, e),
        Stmt::Yadi { condition, then, otherwise } => {
            lemma_infer_grows(st, condition);
            let s1 = infer_spec(st, condition).0;
            lemma_block_grows(s1, then@, 0);
            match otherwise {
                Some(els) => lemma_block_grows(check_block_spec(s1, then@, 0), els@, 0),
                None => {},
            }
        },
        Stmt::JabTak { condition, body } => {
            lemma_infer_grows(st, condition);
            lemma_block_grows(infer_spec(st, condition).0, body@, 0);
        },
        Stmt::BarKaro { count, body } => {
            lemma_infer_grows(st, count);
            lemma_block_grows(infer_spec(st, count).0, body@, 0);
        },
        Stmt::KeeLiye { iter, body, .. } => {
            lemma_infer_grows(st, iter);
            lemma_block_grows(infer_spec(st, iter).0, body@, 0);
        },
        Stmt::Varg { methods, .. } => lemma_block_grows(st, methods@, 0),
        _ => {},
    }
}

pub proof fn lemma_block_grows(st: CheckState, ss: Seq<Stmt>, i: int)
    ensures
        extends(st.diags, check_block_spec(st, ss, i).diags),
    decreases ss, ss.len() - i,
{
    if 0 <= i < ss.len() {
        lemma_stmt_grows(st, ss[i]);
        lemma_block_grows(check_stmt_spec(st, ss[i]), ss, i + 1);
    }
}

/// `+` is never flagged, whatever its operand types: it coerces.
pub proof fn law_plus_never_flagged(st: CheckState, lt: TypeModel, rt: TypeModel)
    ensures
        infer_binop_spec(st, BinOp::Add, lt, rt).0 == st,
        (lt is Str || rt is Str) ==> infer_binop_spec(st, BinOp::Add, lt, rt).1 == TypeModel::Str,
{
}

/// The gradual escape hatches: a declared or actual type that is `Any` or a
/// class type never gives a mismatch, and such an operand of an arithmetic
/// operator is never flagged.
pub proof fn law_gradual_types_silent(st: CheckState, op: BinOp, side: Seq<char>, d: TypeModel, t: TypeModel)
    requires
        !concrete(t),
    ensures
        !mismatch(d, t),
        !mismatch(t, d),
        check_operand(st, op, side, t) == st,
{
}

/// An arithmetic operator other than `+`, `और`, `या` flags each operand
/// whose type is known and is not a number: the left one first, then the
/// right one, each on the current line and naming its side; nothing else is
/// added, and the result is a number.
pub proof fn law_arithmetic_flags_each_side(st: CheckState, op: BinOp, lt: TypeModel, rt: TypeModel)
    requires
        !(op is Add),
        !(op is And),
        !(op is Or),
    ensures
        ({
            let r = infer_binop_spec(st, op, lt, rt);
            let d = r.0.diags;
            let n = st.diags.len();
            let bad_l = concrete(lt) && !(lt is Number);
            let bad_r = concrete(rt) && !(rt is Number);
            &&& r.1 == TypeModel::Number
            &&& d.len() == n + (if bad_l { 1int } else { 0 }) + (if bad_r { 1int } else { 0 })
            &&& d.subrange(0, n as int) == st.diags
            &&& bad_l ==> d[n as int] == (st.cur_line, msg_arith(binop_name_spec(op), "बायाँ"@, lt))
            &&& bad_r ==> d[d.len() - 1] == (st.cur_line, msg_arith(binop_name_spec(op), "दायाँ"@, rt))
        }),
{
    let n = st.diags.len();
    let r = infer_binop_spec(st, op, lt, rt);
    assert(r.0.diags.subrange(0, n as int) =~= st.diags);
}

/// Numbers are never flagged by an arithmetic operator, and the result is a number.
pub proof fn law_numbers_pass_arithmetic(st: CheckState, op: BinOp)
    requires
        !(op is Add),
        !(op is And),
        !(op is Or),
    ensures
        infer_binop_spec(st, op, TypeModel::Number, TypeModel::Number) == (st, TypeModel::Number),
{
}

/// Checking never loses or changes a diagnostic found earlier: the
/// diagnostics after a statement extend those before it.
pub proof fn law_diagnostics_only_grow(st: CheckState, s: Stmt)
    ensures
        st.diags.len() <= check_stmt_spec(st, s).diags.len(),
        check_stmt_spec(st, s).diags.subrange(0, st.diags.len() as int) == st.diags,
{
    lemma_stmt_grows(st, s);
    assert(check_stmt_spec(st, s).diags.subrange(0, st.diags.len() as int) =~= st.diags);
}

/// Whether the checker can rely on `t`.
fn is_concrete(t: &TypeHint) -> (b: bool)
    ensures
        b == concrete(t@),
{
    match t {
        TypeHint::Any | TypeHint::Named(_) => false,
        _ => true,
    }
}

fn copy_opt(t: &Option<TypeHint>) -> (r: Option<TypeHint>)
    ensures
        model_of(r) == model_of(*t),
{
    match t {
        Some(h) => Some(h.copy()),
        None => None,
    }
}

/// The source spelling of an operator.
pub fn binop_name(op: &BinOp) -> (s: &'static str)
    ensures
        s@ == binop_name_spec(*op),
{
    match op {
        BinOp::Add => "+",
        BinOp::Sub => "-",
        BinOp::Mul => "*",
        BinOp::Div => "/",
        BinOp::FloorDiv => "//",
        BinOp::Mod => "%",
        BinOp::BitAnd => "&",
        BinOp::BitOr => "|",
        BinOp::BitXor => "^",
        BinOp::LShift => "<<",
        BinOp::RShift => ">>",
        BinOp::And => "और",
        BinOp::Or => "या",
    }
}

struct Checker {
    diags: Vec<Diagnostic>,
    scopes: Vec<NameTable<TypeHint>>,
    funcs: NameTable<FuncSig>,
    cur_line: u32,
    cur_ret: Option<TypeHint>,
}

pub open spec fn diags_view(d: Seq<Diagnostic>) -> Seq<(int, Seq<char>)> {
    d.map_values(|x: Diagnostic| x@)
}

pub open spec fn scopes_view(s: Seq<NameTable<TypeHint>>) -> Seq<Seq<(Seq<char>, TypeModel)>> {
    s.map_values(|t: NameTable<TypeHint>| t@)
}

impl Checker {
    spec fn state(&self) -> CheckState {
        CheckState {
            diags: diags_view(self.diags@),
            scopes: scopes_view(self.scopes@),
            funcs: self.funcs@,
            cur_line: self.cur_line as int,
            cur_ret: model_of(self.cur_ret),
        }
    }

    fn diag(&mut self, msg: String)
        ensures
            final(self).state() == add_diag(old(self).state(), msg@),
    {
        let d = Diagnostic { line: self.cur_line, message: msg };
        self.diags.push(d);
        assert(diags_view(self.diags@) =~= diags_view(old(self).diags@).push(
            (old(self).cur_line as int, msg@),
        ));
        assert(self.state() =~= add_diag(old(self).state(), msg@));
    }

    fn declare(&mut self, name: &str, t: TypeHint)
        ensures
            final(self).state() == declare_spec(old(self).state(), name@, t@),
    {
        let ghost s0 = scopes_view(self.scopes@);
        match self.scopes.pop() {
            Some(mut s) => {
                s.insert(name.to_owned(), t);
                self.scopes.push(s);
                assert(scopes_view(self.scopes@) =~= s0.update(
                    s0.len() - 1,
                    sorted_insert(s0.last(), name@, t@),
                ));
            },
            None => {},
        }
        assert(self.state() =~= declare_spec(old(self).state(), name@, t@));
    }

    fn lookup_var(&self, name: &str) -> (r: Option<TypeHint>)
        ensures
            model_of(r) == lookup_scopes(self.state().scopes, name@),
    {
        let ghost all = scopes_view(self.scopes@);
        let mut k = self.scopes.len();
        assert(all.subrange(0, k as int) =~= all);
        while k > 0
            invariant
                k <= self.scopes@.len(),
                all == scopes_view(self.scopes@),
                lookup_scopes(all, name@) == lookup_scopes(all.subrange(0, k as int), name@),
            decreases k,
        {
            let ghost pre = all.subrange(0, k as int);
            assert(pre.drop_last() =~= all.subrange(0, k - 1));
            match self.scopes[k - 1].get(name) {
                Some(t) => {
                    return Some(t.copy());
                },
                None => {},
            }
            k = k - 1;
        }
        None
    }

    fn call_ret(&self, name: &str) -> (r: TypeHint)
        ensures
            r@ == call_ret(self.state(), name@),
    {
        match self.funcs.get(name) {
            Some(sig) => sig.ret.copy(),
            None => TypeHint::Any,
        }
    }
}


impl Checker {
    fn infer_binop(&mut self, op: &BinOp, lt: &TypeHint, rt: &TypeHint) -> (t: TypeHint)
        ensures
            (final(self).state(), t@) == infer_binop_spec(old(self).state(), *op, lt@, rt@),
    {
        match op {
            BinOp::Add => {
                if matches!(lt, TypeHint::Str) || matches!(rt, TypeHint::Str) {
                    TypeHint::Str
                } else if matches!(lt, TypeHint::List) && matches!(rt, TypeHint::List) {
                    TypeHint::List
                } else if matches!(lt, TypeHint::Number) && matches!(rt, TypeHint::Number) {
                    TypeHint::Number
                } else {
                    TypeHint::Any
                }
            },
            BinOp::And | BinOp::Or => TypeHint::Bool,
            _ => {
                self.operand(op, "बायाँ", lt);
                self.operand(op, "दायाँ", rt);
                TypeHint::Number
            },
        }
    }

    fn operand(&mut self, op: &BinOp, side: &str, t: &TypeHint)
        ensures
            final(self).state() == check_operand(old(self).state(), *op, side@, t@),
    {
        if is_concrete(t) && !matches!(t, TypeHint::Number) {
            let mut m = "अंकगणित '".to_owned();
            push_str(&mut m, binop_name(op));
            push_str(&mut m, "' को संख्या चाहिए पर ");
            push_str(&mut m, side);
            push_str(&mut m, " पक्ष ");
            push_str(&mut m, t.name().as_str());
            push_str(&mut m, " है");
            self.diag(m);
        }
    }

    /// Infers the expression's type, recording diagnostics (see `infer_spec`).
    fn infer(&mut self, e: &Expr) -> (t: TypeHint)
        ensures
            (final(self).state(), t@) == infer_spec(old(self).state(), *e),
        decreases e, 0int,
    {
        match e {
            Expr::Number(_) => TypeHint::Number,
            Expr::Str(_) => TypeHint::Str,
            Expr::Bool(_) => TypeHint::Bool,
            Expr::List(_) | Expr::ListWithSpread(_) => TypeHint::List,
            Expr::Dict(_) => TypeHint::Dict,
            Expr::Ident(name) => {
                if str_eq(name.as_str(), "शून्य") {
                    TypeHint::Nil
                } else {
                    match self.lookup_var(name.as_str()) {
                        Some(t) => t,
                        None => TypeHint::Any,
                    }
                }
            },
            Expr::Binary { left, op, right } => {
                let lt = self.infer(left);
                let rt = self.infer(right);
                self.infer_binop(op, &lt, &rt)
            },
            Expr::Compare { left, right, .. } => {
                self.infer(left);
                self.infer(right);
                TypeHint::Bool
            },
            Expr::Not(x) => {
                self.infer(x);
                TypeHint::Bool
            },
            Expr::Membership { item, container, .. } => {
                self.infer(item);
                self.infer(container);
                TypeHint::Bool
            },
            Expr::BitNot(x) => {
                self.infer(x);
                TypeHint::Number
            },
            Expr::Call { name, args } => {
                let ret = self.call_ret(name.as_str());
                self.check_call_args(name.as_str(), args);
                ret
            },
            Expr::CallKw { name, args, kwargs } => {
                let ret = self.call_ret(name.as_str());
                self.infer_args(args);
                self.infer_kwargs(kwargs);
                ret
            },
            Expr::Ternary { condition, then_val, else_val } => {
                self.infer(condition);
                let a = self.infer(then_val);
                let b = self.infer(else_val);
                if a == b {
                    a
                } else {
                    TypeHint::Any
                }
            },
            Expr::Slice { obj, start, end, step } => {
                let ot = self.infer(obj);
                self.infer_opt(start);
                self.infer_opt(end);
                self.infer_opt(step);
                match ot {
                    TypeHint::List => TypeHint::List,
                    TypeHint::Str => TypeHint::Str,
                    _ => TypeHint::Any,
                }
            },
            Expr::Walrus { name, value } => {
                let vt = self.infer(value);
                match self.lookup_var(name.as_str()) {
                    Some(declared) => {
                        if is_concrete(&declared) && is_concrete(&vt) && !declared.accepts(&vt) {
                            let m = msg_reassign_exec(name.as_str(), &declared, &vt);
                            self.diag(m);
                        }
                        declared
                    },
                    None => vt,
                }
            },
            Expr::Index { obj, idx } => {
                self.infer(obj);
                self.infer(idx);
                TypeHint::Any
            },
            Expr::MethodCall { object, args, .. } => {
                self.infer(object);
                self.infer_args(args);
                TypeHint::Any
            },
            Expr::MethodCallKw { object, args, kwargs, .. } => {
                self.infer(object);
                self.infer_args(args);
                self.infer_kwargs(kwargs);
                TypeHint::Any
            },
            Expr::Attr { obj, .. } => {
                self.infer(obj);
                TypeHint::Any
            },
            Expr::Await(x) => {
                self.infer(x);
                TypeHint::Any
            },
            Expr::Comprehension { .. } => TypeHint::List,
            Expr::Lambda { .. } => TypeHint::Any,
        }
    }

    /// Infers each expression in order; the types in order.
    fn infer_args(&mut self, es: &Vec<Expr>) -> (tys: Vec<TypeHint>)
        ensures
            (final(self).state(), tys@.map_values(|t: TypeHint| t@)) == infer_list(
                old(self).state(),
                es@,
                0,
            ),
        decreases es@, 1int,
    {
        let ghost st0 = self.state();
        let mut tys: Vec<TypeHint> = Vec::new();
        let mut i: usize = 0;
        while i < es.len()
            invariant
                i <= es@.len(),
                infer_list(st0, es@, 0).0 == infer_list(self.state(), es@, i as int).0,
                infer_list(st0, es@, 0).1 == tys@.map_values(|t: TypeHint| t@) + infer_list(
                    self.state(),
                    es@,
                    i as int,
                ).1,
            decreases es@.len() - i,
        {
            let ghost before = self.state();
            let ghost prev = tys@.map_values(|t: TypeHint| t@);
            let t = self.infer(&es[i]);
            let ghost tm = t@;
            tys.push(t);
            assert(tys@.map_values(|t: TypeHint| t@) =~= prev.push(tm));
            assert(infer_list(before, es@, i as int).1 =~= seq![tm] + infer_list(
                self.state(),
                es@,
                i + 1,
            ).1);
            i = i + 1;
        }
        assert(infer_list(self.state(), es@, i as int).1 =~= Seq::<TypeModel>::empty());
        assert(tys@.map_values(|t: TypeHint| t@) =~= infer_list(st0, es@, 0).1);
        tys
    }

    fn infer_kwargs(&mut self, kw: &Vec<(String, Expr)>)
        ensures
            final(self).state() == infer_kw(old(self).state(), kw@, 0),
        decreases kw@, 1int,
    {
        let ghost st0 = self.state();
        let mut i: usize = 0;
        while i < kw.len()
            invariant
                i <= kw@.len(),
                infer_kw(st0, kw@, 0) == infer_kw(self.state(), kw@, i as int),
            decreases kw@.len() - i,
        {
            self.infer(&kw[i].1);
            i = i + 1;
        }
    }

    fn infer_opt(&mut self, e: &Option<Box<Expr>>)
        ensures
            final(self).state() == infer_opt(old(self).state(), *e),
        decreases *e, 2int,
    {
        match e {
            Some(x) => {
                self.infer(x);
            },
            None => {},
        }
    }

    fn check_call_args(&mut self, name: &str, args: &Vec<Expr>)
        ensures
            final(self).state() == ({
                let (s1, tys) = infer_list(old(self).state(), args@, 0);
                check_args_spec(s1, name@, tys)
            }),
        decreases args@, 2int,
    {
        let tys = self.infer_args(args);
        let ghost s1 = self.state();
        let ghost tm = tys@.map_values(|t: TypeHint| t@);
        let params: Vec<TypeHint> = match self.funcs.get(name) {
            Some(sig) => copy_types(&sig.params),
            None => {
                return;
            },
        };
        let mut i: usize = 0;
        while i < tys.len()
            invariant
                i <= tys@.len(),
                tm == tys@.map_values(|t: TypeHint| t@),
                lookup(s1.funcs, name@) is Some,
                params@.map_values(|t: TypeHint| t@) == lookup(s1.funcs, name@).unwrap().0,
                check_args_spec(s1, name@, tm) == check_args_from(
                    self.state(),
                    name@,
                    params@.map_values(|t: TypeHint| t@),
                    tm,
                    i as int,
                ),
            decreases tys@.len() - i,
        {
            if i < params.len() {
                let pt = &params[i];
                let at = &tys[i];
                if is_concrete(pt) && is_concrete(at) && !pt.accepts(at) {
                    let mut m = "'".to_owned();
                    push_str(&mut m, name);
                    push_str(&mut m, "' का ");
                    let d = decimal((i + 1) as u64);
                    let ds = crate::text::chars_to_string(d.as_slice());
                    push_str(&mut m, ds.as_str());
                    push_str(&mut m, "वाँ तर्क ");
                    push_str(&mut m, pt.name().as_str());
                    push_str(&mut m, " होना चाहिए पर ");
                    push_str(&mut m, at.name().as_str());
                    push_str(&mut m, " दिया गया");
                    self.diag(m);
                }
            }
            i = i + 1;
        }
    }
}

fn copy_types(v: &Vec<TypeHint>) -> (r: Vec<TypeHint>)
    ensures
        r@.map_values(|t: TypeHint| t@) == v@.map_values(|t: TypeHint| t@),
{
    let mut r: Vec<TypeHint> = Vec::new();
    let mut i: usize = 0;
    while i < v.len()
        invariant
            i <= v@.len(),
            r@.len() == i,
            forall|k: int| 0 <= k < i ==> (#[trigger] r@[k])@ == v@[k]@,
        decreases v.len() - i,
    {
        r.push(v[i].copy());
        i = i + 1;
    }
    assert(r@.map_values(|t: TypeHint| t@) =~= v@.map_values(|t: TypeHint| t@));
    r
}

fn msg_reassign_exec(name: &str, d: &TypeHint, v: &TypeHint) -> (m: String)
    ensures
        m@ == msg_reassign(name@, d@, v@),
{
    let mut m = "चर '".to_owned();
    push_str(&mut m, name);
    push_str(&mut m, "' (");
    push_str(&mut m, d.name().as_str());
    push_str(&mut m, ") को ");
    push_str(&mut m, v.name().as_str());
    push_str(&mut m, " मान नहीं दिया जा सकता");
    m
}


impl Checker {
    fn check_stmt(&mut self, s: &Stmt)
        ensures
            final(self).state() == check_stmt_spec(old(self).state(), *s),
        decreases s, 0int,
    {
        match s {
            Stmt::Located { line, inner } => {
                #[verifier::truncate]
                let l = *line as u32;
                self.cur_line = l;
                self.check_stmt(inner);
            },
            Stmt::Assign { name, type_hint, value, .. } => {
                let vt = self.infer(value);
                match type_hint {
                    Some(declared) => {
                        if is_concrete(declared) && is_concrete(&vt) && !declared.accepts(&vt) {
                            let mut m = "चर '".to_owned();
                            push_str(&mut m, name.as_str());
                            push_str(&mut m, "' का प्रकार ");
                            push_str(&mut m, declared.name().as_str());
                            push_str(&mut m, " घोषित है पर ");
                            push_str(&mut m, vt.name().as_str());
                            push_str(&mut m, " मान दिया गया");
                            self.diag(m);
                        }
                        self.declare(name.as_str(), declared.copy());
                    },
                    None => {
                        match self.lookup_var(name.as_str()) {
                            Some(declared) => {
                                if is_concrete(&declared) && is_concrete(&vt) && !declared.accepts(
                                    &vt,
                                ) {
                                    let m = msg_reassign_exec(name.as_str(), &declared, &vt);
                                    self.diag(m);
                                }
                            },
                            None => {},
                        }
                    },
                }
            },
            Stmt::Vidhi { params, body, ret_type, .. } => {
                let ghost st = self.state();
                let saved = copy_opt(&self.cur_ret);
                self.scopes.push(NameTable::new());
                assert(scopes_view(self.scopes@) =~= st.scopes.push(Seq::empty()));
                assert(self.state() =~= CheckState { scopes: st.scopes.push(Seq::empty()), ..st });
                self.declare_params(params);
                self.cur_ret = copy_opt(ret_type);
                let ghost s1 = self.state();
                proof {
                    lemma_params_scopes(
                        CheckState { scopes: st.scopes.push(Seq::empty()), ..st },
                        params@,
                        0,
                    );
                    lemma_block_scopes(s1, body@, 0);
                }
                self.check_block(body);
                let ghost s2 = self.state();
                self.cur_ret = saved;
                self.scopes.pop();
                assert(scopes_view(self.scopes@) =~= s2.scopes.drop_last());
                assert(self.state() =~= CheckState {
                    cur_ret: st.cur_ret,
                    scopes: s2.scopes.drop_last(),
                    ..s2
                });
            },
            Stmt::Fal(e) => {
                let vt = self.infer(e);
                match &self.cur_ret {
                    Some(ret) => {
                        if is_concrete(ret) && is_concrete(&vt) && !ret.accepts(&vt) {
                            let mut m = ret.name();
                            push_str(&mut m, " प्रकार लौटाना है पर ");
                            push_str(&mut m, vt.name().as_str());
                            push_str(&mut m, " लौटाया गया");
                            self.diag(m);
                        }
                    },
                    None => {},
                }
            },
            Stmt::Print(e) | Stmt::ExprStmt(e) | Stmt::Yield(e) => {
                self.infer(e);
            },
            Stmt::Yadi { condition, then, otherwise } => {
                self.infer(condition);
                self.check_block(then);
                match otherwise {
                    Some(els) => self.check_block(els),
                    None => {},
                }
            },
            Stmt::JabTak { condition, body } => {
                self.infer(condition);
                self.check_block(body);
            },
            Stmt::BarKaro { count, body } => {
                self.infer(count);
                self.check_block(body);
            },
            Stmt::KeeLiye { iter, body, .. } => {
                self.infer(iter);
                self.check_block(body);
            },
            Stmt::Varg { methods, .. } => {
                self.check_block(methods);
            },
            _ => {},
        }
    }

    fn declare_params(&mut self, ps: &Vec<Param>)
        ensures
            final(self).state() == declare_params(old(self).state(), ps@, 0),
    {
        let ghost st0 = self.state();
        let mut i: usize = 0;
        while i < ps.len()
            invariant
                i <= ps@.len(),
                declare_params(st0, ps@, 0) == declare_params(self.state(), ps@, i as int),
            decreases ps@.len() - i,
        {
            match &ps[i].type_hint {
                Some(t) => self.declare(ps[i].name.as_str(), t.copy()),
                None => {},
            }
            i = i + 1;
        }
    }

    fn check_block(&mut self, ss: &Vec<Stmt>)
        ensures
            final(self).state() == check_block_spec(old(self).state(), ss@, 0),
        decreases ss@, 1int,
    {
        let ghost st0 = self.state();
        let mut i: usize = 0;
        while i < ss.len()
            invariant
                i <= ss@.len(),
                check_block_spec(st0, ss@, 0) == check_block_spec(self.state(), ss@, i as int),
            decreases ss@.len() - i,
        {
            self.check_stmt(&ss[i]);
            i = i + 1;
        }
    }

    fn collect_signatures(&mut self, ss: &Vec<Stmt>)
        ensures
            final(self).state() == (CheckState {
                funcs: collect_spec(old(self).state().funcs, ss@, 0),
                ..old(self).state()
            }),
    {
        let ghost st0 = self.state();
        let mut i: usize = 0;
        while i < ss.len()
            invariant
                i <= ss@.len(),
                self.state() == (CheckState { funcs: self.funcs@, ..st0 }),
                collect_spec(st0.funcs, ss@, 0) == collect_spec(self.funcs@, ss@, i as int),
            decreases ss@.len() - i,
        {
            match unwrap_located(&ss[i]) {
                Stmt::Vidhi { name, params, ret_type, .. } => {
                    let mut ptypes: Vec<TypeHint> = Vec::new();
                    let mut k: usize = 0;
                    while k < params.len()
                        invariant
                            k <= params@.len(),
                            ptypes@.len() == k,
                            forall|j: int|
                                0 <= j < k ==> (#[trigger] ptypes@[j])@ == or_any(
                                    params@[j].type_hint,
                                ),
                        decreases params@.len() - k,
                    {
                        let t = match &params[k].type_hint {
                            Some(h) => h.copy(),
                            None => TypeHint::Any,
                        };
                        ptypes.push(t);
                        k = k + 1;
                    }
                    let ret = match ret_type {
                        Some(h) => h.copy(),
                        None => TypeHint::Any,
                    };
                    assert(ptypes@.map_values(|t: TypeHint| t@) =~= params@.map_values(
                        |p: Param| or_any(p.type_hint),
                    ));
                    self.funcs.insert(name.clone(), FuncSig { params: ptypes, ret });
                },
                _ => {},
            }
            i = i + 1;
        }
    }
}

/// All diagnostics for a parsed program (see `check_spec`), in the order found.
pub fn check(stmts: &Vec<Stmt>) -> (d: Vec<Diagnostic>)
    ensures
        diags_view(d@) == check_spec(stmts@),
{
    let mut scopes: Vec<NameTable<TypeHint>> = Vec::new();
    scopes.push(NameTable::new());
    let mut c = Checker {
        diags: Vec::new(),
        scopes,
        funcs: NameTable::new(),
        cur_line: 0,
        cur_ret: None,
    };
    assert(scopes_view(c.scopes@) =~= seq![Seq::<(Seq<char>, TypeModel)>::empty()]);
    assert(diags_view(c.diags@) =~= Seq::<(int, Seq<char>)>::empty());
    c.collect_signatures(stmts);
    assert(c.state() =~= CheckState {
        diags: Seq::empty(),
        scopes: seq![Seq::empty()],
        funcs: collect_spec(Seq::empty(), stmts@, 0),
        cur_line: 0,
        cur_ret: None,
    });
    c.check_block(stmts);
    c.diags
}

} // verus!
