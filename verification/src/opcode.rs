//! LVM instruction set — the bytecode the compiler emits and the VM runs.
//!
//! A `Push` constant that is a number carries its IEEE-754 binary64 bit
//! pattern (`f64::to_bits`), which is exactly what the bytecode file stores.

use vstd::prelude::*;
use crate::name_table::NameTable;

verus! {

/// Values that can be encoded directly in `Push` instructions.
pub enum LvmValue {
    /// A number, as the bit pattern of its binary64 value.
    Number(u64),
    Str(String),
    Bool(bool),
    Nil,
}

/// Mathematical value of an `LvmValue`.
pub enum ValModel {
    Number(u64),
    Str(Seq<char>),
    Bool(bool),
    Nil,
}

impl View for LvmValue {
    type V = ValModel;

    open spec fn view(&self) -> ValModel {
        match self {
            LvmValue::Number(n) => ValModel::Number(*n),
            LvmValue::Str(s) => ValModel::Str(s@),
            LvmValue::Bool(b) => ValModel::Bool(*b),
            LvmValue::Nil => ValModel::Nil,
        }
    }
}

/// A user-defined function: parameter names and entry-point instruction index.
pub struct FuncDef {
    pub params: Vec<String>,
    pub start_ip: usize,
    /// Vararg parameter name — collects extra positional args into a List.
    pub vararg: Option<String>,
    /// Per-param constant default values, parallel to `params`;
    /// `None` = required parameter.
    pub defaults: Vec<Option<LvmValue>>,
    /// True if the body contains `उत्पन्न` (a generator function).
    pub is_generator: bool,
}

pub struct FuncModel {
    pub params: Seq<Seq<char>>,
    pub start_ip: usize,
    pub vararg: Option<Seq<char>>,
    pub defaults: Seq<Option<ValModel>>,
    pub is_generator: bool,
}

pub open spec fn strs_view(v: Seq<String>) -> Seq<Seq<char>> {
    v.map_values(|s: String| s@)
}

pub open spec fn vars_view(v: Seq<(String, usize)>) -> Seq<(Seq<char>, usize)> {
    v.map_values(|p: (String, usize)| (p.0@, p.1))
}

pub open spec fn opt_str_view(o: Option<String>) -> Option<Seq<char>> {
    match o {
        Some(s) => Some(s@),
        None => None,
    }
}

pub open spec fn opt_val_view(o: Option<LvmValue>) -> Option<ValModel> {
    match o {
        Some(v) => Some(v@),
        None => None,
    }
}

pub open spec fn defaults_view(v: Seq<Option<LvmValue>>) -> Seq<Option<ValModel>> {
    v.map_values(|o: Option<LvmValue>| opt_val_view(o))
}

impl View for FuncDef {
    type V = FuncModel;

    open spec fn view(&self) -> FuncModel {
        FuncModel {
            params: strs_view(self.params@),
            start_ip: self.start_ip,
            vararg: opt_str_view(self.vararg),
            defaults: defaults_view(self.defaults@),
            is_generator: self.is_generator,
        }
    }
}

/// LIPI VM instruction set.
pub enum Opcode {
    /// push constant onto stack
    Push(LvmValue),
    Pop,
    Dup,
    LoadVar(String),
    StoreVar(String),
    Add,
    Sub,
    Mul,
    Div,
    Mod,
    Eq,
    NotEq,
    Gt,
    Lt,
    GtEq,
    LtEq,
    And,
    Or,
    Not,
    Jump(usize),
    JumpIfFalse(usize),
    JumpIfTrue(usize),
    Call(String, usize),
    CallNative(String, usize),
    Return,
    Print,
    KarakaCheck(String, String),
    Import(String),
    AadhaarVerify,
    UpiSend,
    GstAdd,
    LakhParse,
    RupeeFormat,
    MethodCall(String, usize),
    MakeList(usize),
    MakeDict(usize),
    GetIndex,
    SetIndex,
    MakeInstance(String),
    GetAttr(String),
    SetAttr(String),
    PrintInline,
    TryStart(usize),
    TryEnd,
    ImportFile(String),
    MakeClosure(String),
    GetIterLen,
    GetIterItem,
    BitAnd,
    BitOr,
    BitXor,
    BitNot,
    LShift,
    RShift,
    DeclareGlobal(String),
    DefineEnum(String, Vec<(String, usize)>),
    MatchVariant(String),
    EnumUnpack(Vec<String>),
    TailCall(String, usize),
    Assert(Option<String>),
    DeclareConst(String),
    CallKw(String, usize, Vec<String>),
    FloorDiv,
    UnpackList(usize),
    Slice,
    Contains,
    MakeListSp(Vec<bool>),
    Throw,
    MatchErrClass(String),
    IterNext(String, String),
    Yield,
    IterStep { loop_var: String, container_var: String, idx_var: String },
    MethodCallKw { method: String, pos_argc: usize, kwnames: Vec<String> },
    SetSlice,
}

/// Mathematical value of an `Opcode`.
pub enum OpModel {
    Push(ValModel),
    Pop,
    Dup,
    LoadVar(Seq<char>),
    StoreVar(Seq<char>),
    Add,
    Sub,
    Mul,
    Div,
    Mod,
    Eq,
    NotEq,
    Gt,
    Lt,
    GtEq,
    LtEq,
    And,
    Or,
    Not,
    Jump(usize),
    JumpIfFalse(usize),
    JumpIfTrue(usize),
    Call(Seq<char>, usize),
    CallNative(Seq<char>, usize),
    Return,
    Print,
    KarakaCheck(Seq<char>, Seq<char>),
    Import(Seq<char>),
    AadhaarVerify,
    UpiSend,
    GstAdd,
    LakhParse,
    RupeeFormat,
    MethodCall(Seq<char>, usize),
    MakeList(usize),
    MakeDict(usize),
    GetIndex,
    SetIndex,
    MakeInstance(Seq<char>),
    GetAttr(Seq<char>),
    SetAttr(Seq<char>),
    PrintInline,
    TryStart(usize),
    TryEnd,
    ImportFile(Seq<char>),
    MakeClosure(Seq<char>),
    GetIterLen,
    GetIterItem,
    BitAnd,
    BitOr,
    BitXor,
    BitNot,
    LShift,
    RShift,
    DeclareGlobal(Seq<char>),
    DefineEnum(Seq<char>, Seq<(Seq<char>, usize)>),
    MatchVariant(Seq<char>),
    EnumUnpack(Seq<Seq<char>>),
    TailCall(Seq<char>, usize),
    Assert(Option<Seq<char>>),
    DeclareConst(Seq<char>),
    CallKw(Seq<char>, usize, Seq<Seq<char>>),
    FloorDiv,
    UnpackList(usize),
    Slice,
    Contains,
    MakeListSp(Seq<bool>),
    Throw,
    MatchErrClass(Seq<char>),
    IterNext(Seq<char>, Seq<char>),
    Yield,
    IterStep { loop_var: Seq<char>, container_var: Seq<char>, idx_var: Seq<char> },
    MethodCallKw { method: Seq<char>, pos_argc: usize, kwnames: Seq<Seq<char>> },
    SetSlice,
}

impl View for Opcode {
    type V = OpModel;

    open spec fn view(&self) -> OpModel {
        match self {
            Opcode::Push(v) => OpModel::Push(v@),
            Opcode::Pop => OpModel::Pop,
            Opcode::Dup => OpModel::Dup,
            Opcode::LoadVar(s) => OpModel::LoadVar(s@),
            Opcode::StoreVar(s) => OpModel::StoreVar(s@),
            Opcode::Add => OpModel::Add,
            Opcode::Sub => OpModel::Sub,
            Opcode::Mul => OpModel::Mul,
            Opcode::Div => OpModel::Div,
            Opcode::Mod => OpModel::Mod,
            Opcode::Eq => OpModel::Eq,
            Opcode::NotEq => OpModel::NotEq,
            Opcode::Gt => OpModel::Gt,
            Opcode::Lt => OpModel::Lt,
            Opcode::GtEq => OpModel::GtEq,
            Opcode::LtEq => OpModel::LtEq,
            Opcode::And => OpModel::And,
            Opcode::Or => OpModel::Or,
            Opcode::Not => OpModel::Not,
            Opcode::Jump(a) => OpModel::Jump(*a),
            Opcode::JumpIfFalse(a) => OpModel::JumpIfFalse(*a),
            Opcode::JumpIfTrue(a) => OpModel::JumpIfTrue(*a),
            Opcode::Call(n, c) => OpModel::Call(n@, *c),
            Opcode::CallNative(n, c) => OpModel::CallNative(n@, *c),
            Opcode::Return => OpModel::Return,
            Opcode::Print => OpModel::Print,
            Opcode::KarakaCheck(a, b) => OpModel::KarakaCheck(a@, b@),
            Opcode::Import(s) => OpModel::Import(s@),
            Opcode::AadhaarVerify => OpModel::AadhaarVerify,
            Opcode::UpiSend => OpModel::UpiSend,
            Opcode::GstAdd => OpModel::GstAdd,
            Opcode::LakhParse => OpModel::LakhParse,
            Opcode::RupeeFormat => OpModel::RupeeFormat,
            Opcode::MethodCall(n, c) => OpModel::MethodCall(n@, *c),
            Opcode::MakeList(n) => OpModel::MakeList(*n),
            Opcode::MakeDict(n) => OpModel::MakeDict(*n),
            Opcode::GetIndex => OpModel::GetIndex,
            Opcode::SetIndex => OpModel::SetIndex,
            Opcode::MakeInstance(s) => OpModel::MakeInstance(s@),
            Opcode::GetAttr(s) => OpModel::GetAttr(s@),
            Opcode::SetAttr(s) => OpModel::SetAttr(s@),
            Opcode::PrintInline => OpModel::PrintInline,
            Opcode::TryStart(a) => OpModel::TryStart(*a),
            Opcode::TryEnd => OpModel::TryEnd,
            Opcode::ImportFile(s) => OpModel::ImportFile(s@),
            Opcode::MakeClosure(s) => OpModel::MakeClosure(s@),
            Opcode::GetIterLen => OpModel::GetIterLen,
            Opcode::GetIterItem => OpModel::GetIterItem,
            Opcode::BitAnd => OpModel::BitAnd,
            Opcode::BitOr => OpModel::BitOr,
            Opcode::BitXor => OpModel::BitXor,
            Opcode::BitNot => OpModel::BitNot,
            Opcode::LShift => OpModel::LShift,
            Opcode::RShift => OpModel::RShift,
            Opcode::DeclareGlobal(s) => OpModel::DeclareGlobal(s@),
            Opcode::DefineEnum(n, v) => OpModel::DefineEnum(n@, vars_view(v@)),
            Opcode::MatchVariant(s) => OpModel::MatchVariant(s@),
            Opcode::EnumUnpack(v) => OpModel::EnumUnpack(strs_view(v@)),
            Opcode::TailCall(n, c) => OpModel::TailCall(n@, *c),
            Opcode::Assert(m) => OpModel::Assert(opt_str_view(*m)),
            Opcode::DeclareConst(s) => OpModel::DeclareConst(s@),
            Opcode::CallKw(n, c, k) => OpModel::CallKw(n@, *c, strs_view(k@)),
            Opcode::FloorDiv => OpModel::FloorDiv,
            Opcode::UnpackList(n) => OpModel::UnpackList(*n),
            Opcode::Slice => OpModel::Slice,
            Opcode::Contains => OpModel::Contains,
            Opcode::MakeListSp(f) => OpModel::MakeListSp(f@),
            Opcode::Throw => OpModel::Throw,
            Opcode::MatchErrClass(s) => OpModel::MatchErrClass(s@),
            Opcode::IterNext(a, b) => OpModel::IterNext(a@, b@),
            Opcode::Yield => OpModel::Yield,
            Opcode::IterStep { loop_var, container_var, idx_var } => OpModel::IterStep { loop_var: loop_var@, container_var: container_var@, idx_var: idx_var@ },
            Opcode::MethodCallKw { method, pos_argc, kwnames } => OpModel::MethodCallKw { method: method@, pos_argc: *pos_argc, kwnames: strs_view(kwnames@) },
            Opcode::SetSlice => OpModel::SetSlice,
        }
    }
}

/// Output of the compiler: flat bytecode array, source lines and the tables
/// of functions and class parents.
pub struct CompiledProgram {
    pub instructions: Vec<Opcode>,
    /// Source line per instruction, parallel to `instructions` — 0 = unknown.
    pub lines: Vec<u32>,
    pub functions: NameTable<FuncDef>,
    /// Parent class lookup for inheritance: child → parent class name.
    pub class_parents: NameTable<String>,
}

pub struct ProgModel {
    pub instructions: Seq<OpModel>,
    pub lines: Seq<u32>,
    pub functions: Seq<(Seq<char>, FuncModel)>,
    pub class_parents: Seq<(Seq<char>, Seq<char>)>,
}

impl View for CompiledProgram {
    type V = ProgModel;

    open spec fn view(&self) -> ProgModel {
        ProgModel {
            instructions: self.instructions@.map_values(|o: Opcode| o@),
            lines: self.lines@,
            functions: self.functions@,
            class_parents: self.class_parents@,
        }
    }
}

} // verus!
