//! The syntax tree of LIPI programs, and its mathematical value.

use vstd::prelude::*;
use crate::types::{TypeHint, TypeModel};

verus! {

/// Binary operators.
#[derive(Clone, Copy, PartialEq, Eq, Structural, Debug)]
pub enum BinOp {
    Add,
    Sub,
    Mul,
    Div,
    FloorDiv,
    Mod,
    BitAnd,
    BitOr,
    BitXor,
    LShift,
    RShift,
    And,
    Or,
}

/// Comparison operators.
#[derive(Clone, Copy, PartialEq, Eq, Structural, Debug)]
pub enum CmpOp {
    /// `से अधिक`
    SeAdhik,
    /// `से कम`
    SeKam,
    Eq,
    NotEq,
    Lt,
    Gt,
    LtEq,
    GtEq,
}

/// Kāraka (semantic role) annotations of names and parameters.
#[derive(Clone, Copy, PartialEq, Eq, Structural, Debug)]
pub enum Karaka {
    Karta,
    Karma,
    Karana,
    Sampradan,
    Apadan,
    Adhikaran,
}

/// A function parameter: its name, role, constant default and declared type.
pub struct Param {
    pub name: String,
    pub karaka: Option<Karaka>,
    pub default: Option<Expr>,
    pub type_hint: Option<TypeHint>,
}

/// Expressions.
#[allow(inconsistent_fields)]
pub enum Expr {
    /// A number literal (the bits of its `f64` value).
    Number(u64),
    Str(String),
    Bool(bool),
    List(Vec<Expr>),
    /// A list literal with `*` spread elements (flagged `true`).
    ListWithSpread(Vec<(bool, Expr)>),
    Dict(Vec<(Expr, Expr)>),
    Ident(String),
    Binary { left: Box<Expr>, op: BinOp, right: Box<Expr> },
    Compare { left: Box<Expr>, op: CmpOp, right: Box<Expr> },
    Not(Box<Expr>),
    Membership { item: Box<Expr>, container: Box<Expr>, negated: bool },
    BitNot(Box<Expr>),
    Call { name: String, args: Vec<Expr> },
    CallKw { name: String, args: Vec<Expr>, kwargs: Vec<(String, Expr)> },
    Ternary { condition: Box<Expr>, then_val: Box<Expr>, else_val: Box<Expr> },
    Slice {
        obj: Box<Expr>,
        start: Option<Box<Expr>>,
        end: Option<Box<Expr>>,
        step: Option<Box<Expr>>,
    },
    Walrus { name: String, value: Box<Expr> },
    Index { obj: Box<Expr>, idx: Box<Expr> },
    MethodCall { object: Box<Expr>, method: String, args: Vec<Expr> },
    MethodCallKw { object: Box<Expr>, method: String, args: Vec<Expr>, kwargs: Vec<(String, Expr)> },
    Attr { obj: Box<Expr>, field: String },
    Await(Box<Expr>),
    /// `[e के लिए v s में ... यदि c]`: the element, the (variable, iterable)
    /// clauses and the optional filter.
    Comprehension { expr: Box<Expr>, clauses: Vec<(String, Expr)>, cond: Option<Box<Expr>> },
    Lambda { params: Vec<String>, vararg: Option<String>, body: Vec<Stmt> },
}

/// One `पकड़ो` clause: the error class (all errors when `None`), the name
/// bound, and the handler.
pub struct CatchClause {
    pub class: Option<String>,
    pub var: String,
    pub body: Vec<Stmt>,
}

/// A variant of a `विकल्प` (sum type) and its field names.
pub struct ViKalpVariant {
    pub name: String,
    pub fields: Vec<String>,
}

/// The pattern of a `मिलाओ` arm.
pub enum MilaoPattern {
    /// `अन्यथा`
    Wildcard,
    /// A variant name and the names its fields are bound to.
    Variant(String, Vec<String>),
}

/// One arm of a `मिलाओ`: pattern, optional guard, body.
pub struct MilaoArm {
    pub pattern: MilaoPattern,
    pub guard: Option<Expr>,
    pub body: Vec<Stmt>,
}

/// Statements.
pub enum Stmt {
    /// A statement with its source line.
    Located { line: usize, inner: Box<Stmt> },
    /// `नाम [कारक][: प्रकार] है मान`
    Assign { name: String, karaka: Option<Karaka>, type_hint: Option<TypeHint>, value: Expr },
    /// `अ है ब है मान`
    ChainAssign { names: Vec<String>, value: Expr },
    /// `अ, ब है 1, 2`
    MultiAssign { names: Vec<String>, values: Vec<Expr> },
    /// `नाम[i] है मान`
    IndexAssign { obj: String, idx: Expr, val: Expr },
    /// `नाम[a:b:c] है मान`
    SliceAssign { obj: String, start: Option<Expr>, end: Option<Expr>, step: Option<Expr>, val: Expr },
    /// `नाम.क्षेत्र है मान`
    AttrAssign { obj: String, field: String, val: Expr },
    /// `विधि नाम(परम...) [-> प्रकार]:`
    Vidhi {
        name: String,
        params: Vec<Param>,
        body: Vec<Stmt>,
        vararg: Option<String>,
        pure: bool,
        decorators: Vec<Expr>,
        is_static: bool,
        ret_type: Option<TypeHint>,
    },
    /// `फल मान` (return)
    Fal(Expr),
    /// `बताओ मान` (print)
    Print(Expr),
    ExprStmt(Expr),
    Yield(Expr),
    /// `यदि ... अन्यथा`
    Yadi { condition: Expr, then: Vec<Stmt>, otherwise: Option<Vec<Stmt>> },
    /// `जब तक` (while)
    JabTak { condition: Expr, body: Vec<Stmt> },
    /// `... बार करो` (repeat)
    BarKaro { count: Expr, body: Vec<Stmt> },
    /// `के लिए` (for)
    KeeLiye { var: String, iter: Expr, body: Vec<Stmt> },
    /// `वर्ग` (class)
    Varg { name: String, parent: Option<String>, methods: Vec<Stmt>, is_abstract: bool },
    /// `बंद करो` (break)
    BandKaro,
    /// `अगला` (continue)
    Agla,
    Likho(Expr),
    /// `फेंको` (throw)
    Phenko(Expr),
    TryCatch { body: Vec<Stmt>, clauses: Vec<CatchClause> },
    Global(Vec<String>),
    /// `जाँचो` (assert)
    Jancho { expr: Expr, message: Option<Expr> },
    /// `स्थिर नाम है मान`
    SthirDecl { name: String, value: Expr },
    ViKalp { name: String, variants: Vec<ViKalpVariant> },
    Milao { subject: Expr, arms: Vec<MilaoArm> },
    Aayat(String),
    AayatFile(String),
    AayatFileAs { path: String, alias: String },
    /// `परीक्षण "नाम":`
    Parikshan { name: String, body: Vec<Stmt> },
    /// `साथ ... के_रूप_में नाम:`
    Saath { expr: Expr, var: String, body: Vec<Stmt> },
}

// ── The mathematical trees ────────────────────────────────────────────────────

/// The value of a `Param`.
pub struct ParamM {
    pub name: Seq<char>,
    pub karaka: Option<Karaka>,
    pub default: Option<ExprM>,
    pub type_hint: Option<TypeModel>,
}

/// The value of an `Expr`: the same shape, with texts as `Seq<char>` and
/// lists as `Seq`.
pub enum ExprM {
    Number(u64),
    Str(Seq<char>),
    Bool(bool),
    List(Seq<ExprM>),
    ListWithSpread(Seq<(bool, ExprM)>),
    Dict(Seq<(ExprM, ExprM)>),
    Ident(Seq<char>),
    Binary(Box<ExprM>, BinOp, Box<ExprM>),
    Compare(Box<ExprM>, CmpOp, Box<ExprM>),
    Not(Box<ExprM>),
    Membership(Box<ExprM>, Box<ExprM>, bool),
    BitNot(Box<ExprM>),
    Call(Seq<char>, Seq<ExprM>),
    CallKw(Seq<char>, Seq<ExprM>, Seq<(Seq<char>, ExprM)>),
    Ternary(Box<ExprM>, Box<ExprM>, Box<ExprM>),
    Slice(Box<ExprM>, Option<Box<ExprM>>, Option<Box<ExprM>>, Option<Box<ExprM>>),
    Walrus(Seq<char>, Box<ExprM>),
    Index(Box<ExprM>, Box<ExprM>),
    MethodCall(Box<ExprM>, Seq<char>, Seq<ExprM>),
    MethodCallKw(Box<ExprM>, Seq<char>, Seq<ExprM>, Seq<(Seq<char>, ExprM)>),
    Attr(Box<ExprM>, Seq<char>),
    Await(Box<ExprM>),
    Comprehension(Box<ExprM>, Seq<(Seq<char>, ExprM)>, Option<Box<ExprM>>),
    Lambda(Seq<Seq<char>>, Option<Seq<char>>, Seq<StmtM>),
}

/// The value of a `CatchClause`.
pub struct CatchM {
    pub class: Option<Seq<char>>,
    pub var: Seq<char>,
    pub body: Seq<StmtM>,
}

/// The value of a `ViKalpVariant`.
pub struct VariantM {
    pub name: Seq<char>,
    pub fields: Seq<Seq<char>>,
}

/// The value of a `MilaoPattern`.
pub enum PatternM {
    Wildcard,
    Variant(Seq<char>, Seq<Seq<char>>),
}

/// The value of a `MilaoArm`.
pub struct ArmM {
    pub pattern: PatternM,
    pub guard: Option<ExprM>,
    pub body: Seq<StmtM>,
}

/// The value of a `Stmt`.
pub enum StmtM {
    Located(nat, Box<StmtM>),
    Assign(Seq<char>, Option<Karaka>, Option<TypeModel>, ExprM),
    ChainAssign(Seq<Seq<char>>, ExprM),
    MultiAssign(Seq<Seq<char>>, Seq<ExprM>),
    IndexAssign(Seq<char>, ExprM, ExprM),
    SliceAssign(Seq<char>, Option<ExprM>, Option<ExprM>, Option<ExprM>, ExprM),
    AttrAssign(Seq<char>, Seq<char>, ExprM),
    Vidhi {
        name: Seq<char>,
        params: Seq<ParamM>,
        body: Seq<StmtM>,
        vararg: Option<Seq<char>>,
        pure: bool,
        decorators: Seq<ExprM>,
        is_static: bool,
        ret_type: Option<TypeModel>,
    },
    Fal(ExprM),
    Print(ExprM),
    ExprStmt(ExprM),
    Yield(ExprM),
    Yadi(ExprM, Seq<StmtM>, Option<Seq<StmtM>>),
    JabTak(ExprM, Seq<StmtM>),
    BarKaro(ExprM, Seq<StmtM>),
    KeeLiye(Seq<char>, ExprM, Seq<StmtM>),
    Varg(Seq<char>, Option<Seq<char>>, Seq<StmtM>, bool),
    BandKaro,
    Agla,
    Likho(ExprM),
    Phenko(ExprM),
    TryCatch(Seq<StmtM>, Seq<CatchM>),
    Global(Seq<Seq<char>>),
    Jancho(ExprM, Option<ExprM>),
    SthirDecl(Seq<char>, ExprM),
    ViKalp(Seq<char>, Seq<VariantM>),
    Milao(ExprM, Seq<ArmM>),
    Aayat(Seq<char>),
    AayatFile(Seq<char>),
    AayatFileAs(Seq<char>, Seq<char>),
    Parikshan(Seq<char>, Seq<StmtM>),
    Saath(ExprM, Seq<char>, Seq<StmtM>),
}

/// The texts of a list of strings.
pub open spec fn names_view(v: Seq<String>) -> Seq<Seq<char>> {
    v.map_values(|s: String| s@)
}

pub open spec fn opt_str_view(o: Option<String>) -> Option<Seq<char>> {
    match o {
        Some(s) => Some(s@),
        None => None,
    }
}

pub open spec fn opt_type_view(o: Option<TypeHint>) -> Option<TypeModel> {
    match o {
        Some(t) => Some(t@),
        None => None,
    }
}

pub open spec fn expr_view(e: Expr) -> ExprM
    decreases e, 0int,
{
    match e {
        Expr::Number(b) => ExprM::Number(b),
        Expr::Str(s) => ExprM::Str(s@),
        Expr::Bool(b) => ExprM::Bool(b),
        Expr::List(v) => ExprM::List(exprs_view(v@)),
        Expr::ListWithSpread(v) => ExprM::ListWithSpread(spread_view(v@)),
        Expr::Dict(v) => ExprM::Dict(pairs_view(v@)),
        Expr::Ident(s) => ExprM::Ident(s@),
        Expr::Binary { left, op, right } => ExprM::Binary(
            Box::new(expr_view(*left)),
            op,
            Box::new(expr_view(*right)),
        ),
        Expr::Compare { left, op, right } => ExprM::Compare(
            Box::new(expr_view(*left)),
            op,
            Box::new(expr_view(*right)),
        ),
        Expr::Not(x) => ExprM::Not(Box::new(expr_view(*x))),
        Expr::Membership { item, container, negated } => ExprM::Membership(
            Box::new(expr_view(*item)),
            Box::new(expr_view(*container)),
            negated,
        ),
        Expr::BitNot(x) => ExprM::BitNot(Box::new(expr_view(*x))),
        Expr::Call { name, args } => ExprM::Call(name@, exprs_view(args@)),
        Expr::CallKw { name, args, kwargs } => ExprM::CallKw(name@, exprs_view(args@), kw_view(kwargs@)),
        Expr::Ternary { condition, then_val, else_val } => ExprM::Ternary(
            Box::new(expr_view(*condition)),
            Box::new(expr_view(*then_val)),
            Box::new(expr_view(*else_val)),
        ),
        Expr::Slice { obj, start, end, step } => ExprM::Slice(
            Box::new(expr_view(*obj)),
            match start {
                Some(x) => Some(Box::new(expr_view(*x))),
                None => None,
            },
            match end {
                Some(x) => Some(Box::new(expr_view(*x))),
                None => None,
            },
            match step {
                Some(x) => Some(Box::new(expr_view(*x))),
                None => None,
            },
        ),
        Expr::Walrus { name, value } => ExprM::Walrus(name@, Box::new(expr_view(*value))),
        Expr::Index { obj, idx } => ExprM::Index(Box::new(expr_view(*obj)), Box::new(expr_view(*idx))),
        Expr::MethodCall { object, method, args } => ExprM::MethodCall(
            Box::new(expr_view(*object)),
            method@,
            exprs_view(args@),
        ),
        Expr::MethodCallKw { object, method, args, kwargs } => ExprM::MethodCallKw(
            Box::new(expr_view(*object)),
            method@,
            exprs_view(args@),
            kw_view(kwargs@),
        ),
        Expr::Attr { obj, field } => ExprM::Attr(Box::new(expr_view(*obj)), field@),
        Expr::Await(x) => ExprM::Await(Box::new(expr_view(*x))),
        Expr::Comprehension { expr, clauses, cond } => ExprM::Comprehension(
            Box::new(expr_view(*expr)),
            kw_view(clauses@),
            match cond {
                Some(x) => Some(Box::new(expr_view(*x))),
                None => None,
            },
        ),
        Expr::Lambda { params, vararg, body } => ExprM::Lambda(
            names_view(params@),
            opt_str_view(vararg),
            stmts_view(body@),
        ),
    }
}

pub open spec fn exprs_view(v: Seq<Expr>) -> Seq<ExprM>
    decreases v, 1int,
{
    if v.len() == 0 {
        Seq::empty()
    } else {
        exprs_view(v.drop_last()).push(expr_view(v.last()))
    }
}

pub open spec fn spread_view(v: Seq<(bool, Expr)>) -> Seq<(bool, ExprM)>
    decreases v, 1int,
{
    if v.len() == 0 {
        Seq::empty()
    } else {
        spread_view(v.drop_last()).push((v.last().0, expr_view(v.last().1)))
    }
}

pub open spec fn pairs_view(v: Seq<(Expr, Expr)>) -> Seq<(ExprM, ExprM)>
    decreases v, 1int,
{
    if v.len() == 0 {
        Seq::empty()
    } else {
        pairs_view(v.drop_last()).push((expr_view(v.last().0), expr_view(v.last().1)))
    }
}

pub open spec fn kw_view(v: Seq<(String, Expr)>) -> Seq<(Seq<char>, ExprM)>
    decreases v, 1int,
{
    if v.len() == 0 {
        Seq::empty()
    } else {
        kw_view(v.drop_last()).push((v.last().0@, expr_view(v.last().1)))
    }
}

pub open spec fn opt_expr_view(o: Option<Expr>) -> Option<ExprM> {
    match o {
        Some(x) => Some(expr_view(x)),
        None => None,
    }
}

pub open spec fn param_view(p: Param) -> ParamM
    decreases p, 1int,
{
    ParamM {
        name: p.name@,
        karaka: p.karaka,
        default: match p.default {
            Some(x) => Some(expr_view(x)),
            None => None,
        },
        type_hint: opt_type_view(p.type_hint),
    }
}

pub open spec fn params_view(v: Seq<Param>) -> Seq<ParamM>
    decreases v, 2int,
{
    if v.len() == 0 {
        Seq::empty()
    } else {
        params_view(v.drop_last()).push(param_view(v.last()))
    }
}

pub open spec fn stmt_view(s: Stmt) -> StmtM
    decreases s, 0int,
{
    match s {
        Stmt::Located { line, inner } => StmtM::Located(line as nat, Box::new(stmt_view(*inner))),
        Stmt::Assign { name, karaka, type_hint, value } => StmtM::Assign(
            name@,
            karaka,
            opt_type_view(type_hint),
            expr_view(value),
        ),
        Stmt::ChainAssign { names, value } => StmtM::ChainAssign(names_view(names@), expr_view(value)),
        Stmt::MultiAssign { names, values } => StmtM::MultiAssign(names_view(names@), exprs_view(values@)),
        Stmt::IndexAssign { obj, idx, val } => StmtM::IndexAssign(obj@, expr_view(idx), expr_view(val)),
        Stmt::SliceAssign { obj, start, end, step, val } => StmtM::SliceAssign(
            obj@,
            match start {
                Some(x) => Some(expr_view(x)),
                None => None,
            },
            match end {
                Some(x) => Some(expr_view(x)),
                None => None,
            },
            match step {
                Some(x) => Some(expr_view(x)),
                None => None,
            },
            expr_view(val),
        ),
        Stmt::AttrAssign { obj, field, val } => StmtM::AttrAssign(obj@, field@, expr_view(val)),
        Stmt::Vidhi { name, params, body, vararg, pure, decorators, is_static, ret_type } => StmtM::Vidhi {
            name: name@,
            params: params_view(params@),
            body: stmts_view(body@),
            vararg: opt_str_view(vararg),
            pure,
            decorators: exprs_view(decorators@),
            is_static,
            ret_type: opt_type_view(ret_type),
        },
        Stmt::Fal(e) => StmtM::Fal(expr_view(e)),
        Stmt::Print(e) => StmtM::Print(expr_view(e)),
        Stmt::ExprStmt(e) => StmtM::ExprStmt(expr_view(e)),
        Stmt::Yield(e) => StmtM::Yield(expr_view(e)),
        Stmt::Yadi { condition, then, otherwise } => StmtM::Yadi(
            expr_view(condition),
            stmts_view(then@),
            match otherwise {
                Some(b) => Some(stmts_view(b@)),
                None => None,
            },
        ),
        Stmt::JabTak { condition, body } => StmtM::JabTak(expr_view(condition), stmts_view(body@)),
        Stmt::BarKaro { count, body } => StmtM::BarKaro(expr_view(count), stmts_view(body@)),
        Stmt::KeeLiye { var, iter, body } => StmtM::KeeLiye(var@, expr_view(iter), stmts_view(body@)),
        Stmt::Varg { name, parent, methods, is_abstract } => StmtM::Varg(
            name@,
            opt_str_view(parent),
            stmts_view(methods@),
            is_abstract,
        ),
        Stmt::BandKaro => StmtM::BandKaro,
        Stmt::Agla => StmtM::Agla,
        Stmt::Likho(e) => StmtM::Likho(expr_view(e)),
        Stmt::Phenko(e) => StmtM::Phenko(expr_view(e)),
        Stmt::TryCatch { body, clauses } => StmtM::TryCatch(stmts_view(body@), catches_view(clauses@)),
        Stmt::Global(v) => StmtM::Global(names_view(v@)),
        Stmt::Jancho { expr, message } => StmtM::Jancho(
            expr_view(expr),
            match message {
                Some(x) => Some(expr_view(x)),
                None => None,
            },
        ),
        Stmt::SthirDecl { name, value } => StmtM::SthirDecl(name@, expr_view(value)),
        Stmt::ViKalp { name, variants } => StmtM::ViKalp(name@, variants_view(variants@)),
        Stmt::Milao { subject, arms } => StmtM::Milao(expr_view(subject), arms_view(arms@)),
        Stmt::Aayat(s) => StmtM::Aayat(s@),
        Stmt::AayatFile(s) => StmtM::AayatFile(s@),
        Stmt::AayatFileAs { path, alias } => StmtM::AayatFileAs(path@, alias@),
        Stmt::Parikshan { name, body } => StmtM::Parikshan(name@, stmts_view(body@)),
        Stmt::Saath { expr, var, body } => StmtM::Saath(expr_view(expr), var@, stmts_view(body@)),
    }
}

pub open spec fn stmts_view(v: Seq<Stmt>) -> Seq<StmtM>
    decreases v, 1int,
{
    if v.len() == 0 {
        Seq::empty()
    } else {
        stmts_view(v.drop_last()).push(stmt_view(v.last()))
    }
}

pub open spec fn catch_view(c: CatchClause) -> CatchM
    decreases c, 1int,
{
    CatchM { class: opt_str_view(c.class), var: c.var@, body: stmts_view(c.body@) }
}

pub open spec fn catches_view(v: Seq<CatchClause>) -> Seq<CatchM>
    decreases v, 2int,
{
    if v.len() == 0 {
        Seq::empty()
    } else {
        catches_view(v.drop_last()).push(catch_view(v.last()))
    }
}

pub open spec fn variant_view(x: ViKalpVariant) -> VariantM {
    VariantM { name: x.name@, fields: names_view(x.fields@) }
}

pub open spec fn variants_view(v: Seq<ViKalpVariant>) -> Seq<VariantM> {
    v.map_values(|x: ViKalpVariant| variant_view(x))
}

pub open spec fn pattern_view(p: MilaoPattern) -> PatternM {
    match p {
        MilaoPattern::Wildcard => PatternM::Wildcard,
        MilaoPattern::Variant(n, b) => PatternM::Variant(n@, names_view(b@)),
    }
}

pub open spec fn arm_view(a: MilaoArm) -> ArmM
    decreases a, 1int,
{
    ArmM {
        pattern: pattern_view(a.pattern),
        guard: match a.guard {
            Some(x) => Some(expr_view(x)),
            None => None,
        },
        body: stmts_view(a.body@),
    }
}

pub open spec fn arms_view(v: Seq<MilaoArm>) -> Seq<ArmM>
    decreases v, 2int,
{
    if v.len() == 0 {
        Seq::empty()
    } else {
        arms_view(v.drop_last()).push(arm_view(v.last()))
    }
}

/// The statement under any line markers.
pub open spec fn unwrap_located_spec(s: Stmt) -> Stmt
    decreases s,
{
    match s {
        Stmt::Located { inner, .. } => unwrap_located_spec(*inner),
        _ => s,
    }
}

/// The statement under any line markers.
pub fn unwrap_located(s: &Stmt) -> (r: &Stmt)
    ensures
        *r == unwrap_located_spec(*s),
    decreases s,
{
    match s {
        Stmt::Located { inner, .. } => unwrap_located(inner),
        _ => s,
    }
}

} // verus!
